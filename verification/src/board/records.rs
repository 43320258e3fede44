//! A record reads back as the position it was written for.

use vstd::prelude::*;
use crate::board::fen;
use crate::board::fen::{Rights, Setup};
use crate::board::mirror;
use crate::board::placement;
use crate::board::position;
use crate::board::position::Position;
use crate::board::state;
use crate::board::tally;
use crate::board::text;
use crate::board::types::{CastlingRights, Color, Direction, Piece, PieceType, Square, SquareOrNone};

verus! {

// ---------------------------------------------------------------------------
// Words
// ---------------------------------------------------------------------------

/// Every byte is a visible ASCII character.
pub open spec fn visible(s: Seq<u8>) -> bool {
    forall|i: int| 0 <= i < s.len() ==> 33 <= #[trigger] s[i] <= 126
}

/// Every character is ASCII, and visible or a space.
pub open spec fn plain_text(s: Seq<char>) -> bool {
    forall|i: int| 0 <= i < s.len() ==> 32 <= #[trigger] s[i] as int <= 126
}

/// The bytes `w` stand in `s` from `i` on.
pub open spec fn stands_at(s: Seq<u8>, i: int, w: Seq<u8>) -> bool {
    &&& 0 <= i
    &&& i + w.len() <= s.len()
    &&& forall|k: int| 0 <= k < w.len() ==> s[i + k] == #[trigger] w[k]
}

proof fn lemma_word_end(s: Seq<u8>, i: int, e: int)
    requires
        0 <= i <= e <= s.len(),
        forall|k: int| i <= k < e ==> !text::is_space(#[trigger] s[k]),
        e == s.len() || text::is_space(s[e]),
    ensures
        text::word_end(s, i) == e,
    decreases e - i,
{
    if i < e {
        lemma_word_end(s, i + 1, e);
    }
}

/// The word `w` stands at `i`, after the word before it and a space, and ends there.
proof fn lemma_word(s: Seq<u8>, n: nat, i: int, w: Seq<u8>)
    requires
        stands_at(s, i, w),
        visible(w),
        w.len() > 0,
        n == 0 ==> i == 0,
        n > 0 ==> i > 0 && text::word_span(s, (n - 1) as nat).1 == i - 1 && s[i - 1] == 32,
        i + w.len() == s.len() || s[i + w.len()] == 32,
    ensures
        text::word_span(s, n) == (i, i + w.len()),
        text::word(s, n) == Some(w),
{
    assert forall|k: int| i <= k < i + w.len() implies !text::is_space(#[trigger] s[k]) by {
        assert(s[i + (k - i)] == w[k - i]);
    }
    lemma_word_end(s, i, i + w.len());
    assert(text::skip_space(s, i) == i);
    if n > 0 {
        assert(text::skip_space(s, i - 1) == text::skip_space(s, i));
    }
    assert(s.subrange(i, i + w.len()) =~= w);
}

/// Six words with one space between each two.
pub open spec fn six(
    a: Seq<char>,
    b: Seq<char>,
    c: Seq<char>,
    d: Seq<char>,
    e: Seq<char>,
    f: Seq<char>,
) -> Seq<char> {
    a + seq![' '] + b + seq![' '] + c + seq![' '] + d + seq![' '] + e + seq![' '] + f
}

proof fn lemma_six(
    a: Seq<char>,
    b: Seq<char>,
    c: Seq<char>,
    d: Seq<char>,
    e: Seq<char>,
    f: Seq<char>,
    s: Seq<u8>,
)
    requires
        s == text::ascii(six(a, b, c, d, e, f)),
        visible(text::ascii(a)),
        visible(text::ascii(b)),
        visible(text::ascii(c)),
        visible(text::ascii(d)),
        visible(text::ascii(e)),
        visible(text::ascii(f)),
        a.len() > 0,
        b.len() > 0,
        c.len() > 0,
        d.len() > 0,
        e.len() > 0,
        f.len() > 0,
    ensures
        text::word(s, 0) == Some(text::ascii(a)),
        text::word(s, 1) == Some(text::ascii(b)),
        text::word(s, 2) == Some(text::ascii(c)),
        text::word(s, 3) == Some(text::ascii(d)),
        text::word(s, 4) == Some(text::ascii(e)),
        text::word(s, 5) == Some(text::ascii(f)),
{
    let t = six(a, b, c, d, e, f);
    let i1 = a.len() + 1;
    let i2 = i1 + b.len() + 1;
    let i3 = i2 + c.len() + 1;
    let i4 = i3 + d.len() + 1;
    let i5 = i4 + e.len() + 1;
    assert(stands_at(s, 0, text::ascii(a)));
    assert(stands_at(s, i1 as int, text::ascii(b)));
    assert(stands_at(s, i2 as int, text::ascii(c)));
    assert(stands_at(s, i3 as int, text::ascii(d)));
    assert(stands_at(s, i4 as int, text::ascii(e)));
    assert(stands_at(s, i5 as int, text::ascii(f)));
    assert(t[i1 - 1] == ' ' && t[i2 - 1] == ' ' && t[i3 - 1] == ' ' && t[i4 - 1] == ' ' && t[i5 - 1]
        == ' ');
    assert(s[i1 - 1] == 32 && s[i2 - 1] == 32 && s[i3 - 1] == 32 && s[i4 - 1] == 32 && s[i5 - 1]
        == 32);
    lemma_word(s, 0, 0, text::ascii(a));
    lemma_word(s, 1, i1 as int, text::ascii(b));
    lemma_word(s, 2, i2 as int, text::ascii(c));
    lemma_word(s, 3, i3 as int, text::ascii(d));
    lemma_word(s, 4, i4 as int, text::ascii(e));
    lemma_word(s, 5, i5 as int, text::ascii(f));
}

/// The encoding of an ASCII text is its characters, byte by byte.
proof fn lemma_encoding(t: Seq<char>)
    requires
        plain_text(t),
    ensures
        vstd::utf8::encode_utf8(t) == text::ascii(t),
{
    assert(vstd::utf8::is_ascii_chars(t)) by {
        assert forall|i: int| 0 <= i < t.len() implies #[trigger] t[i] as nat <= 127 by {
            assert(32 <= t[i] as int <= 126);
        }
    }
    vstd::utf8::is_ascii_chars_encode_utf8(t);
    assert(vstd::utf8::encode_utf8(t) =~= text::ascii(t));
}

// ---------------------------------------------------------------------------
// The placement field
// ---------------------------------------------------------------------------

/// What has been read of `b` once the ranks above `rank` and the files below `file` are.
pub open spec fn upto(b: Seq<Piece>, rank: int, file: int) -> Seq<Piece> {
    Seq::new(
        64,
        |j: int|
            if j / 8 > rank || (j / 8 == rank && j % 8 < file) {
                b[j]
            } else {
                Piece::NONE
            },
    )
}

proof fn lemma_letter(pc: Piece)
    requires
        pc.is_real(),
    ensures
        65 <= pc.letter() <= 122,
        Piece::of_letter(pc.letter()) == Some(pc),
{
}

/// The text of a rank is visible and not empty.
proof fn lemma_rank_visible(b: Seq<Piece>, rank: int, file: int, run: int)
    requires
        placement::clean(b),
        0 <= rank < 8,
        0 <= run <= file <= 8,
    ensures
        visible(text::ascii(fen::rank_text(b, rank, file, run))),
        file < 8 || run > 0 ==> fen::rank_text(b, rank, file, run).len() > 0,
    decreases 8 - file,
{
    if file < 8 {
        let pc = b[8 * rank + file];
        if pc == Piece::NONE {
            lemma_rank_visible(b, rank, file + 1, run + 1);
        } else {
            lemma_rank_visible(b, rank, file + 1, 0);
            lemma_letter(pc);
            let head = fen::run_text(run) + seq![pc.letter() as char];
            let rest = fen::rank_text(b, rank, file + 1, 0);
            let all = text::ascii(head + rest);
            assert forall|i: int| 0 <= i < all.len() implies 33 <= #[trigger] all[i] <= 126 by {
                if i >= head.len() {
                    assert(text::ascii(rest)[i - head.len()] == all[i]);
                }
            }
        }
    }
}

proof fn lemma_rank(t: Seq<u8>, i: int, b: Seq<Piece>, rank: int, file: int, run: int)
    requires
        placement::clean(b),
        0 <= rank < 8,
        0 <= run <= file <= 8,
        stands_at(t, i, text::ascii(fen::rank_text(b, rank, file, run))),
    ensures
        fen::scan_board(t, i, file - run, rank, upto(b, rank, file)) == fen::scan_board(
            t,
            i + fen::rank_text(b, rank, file, run).len(),
            8,
            rank,
            upto(b, rank, 8),
        ),
    decreases 8 - file,
{
    let seg = fen::rank_text(b, rank, file, run);
    let w = text::ascii(seg);
    if file >= 8 {
        if run > 0 {
            assert(t[i + 0] == w[0]);
            assert(w[0] == 48 + run);
        }
        assert(upto(b, rank, file) =~= upto(b, rank, 8));
    } else {
        let pc = b[8 * rank + file];
        if pc == Piece::NONE {
            lemma_rank(t, i, b, rank, file + 1, run + 1);
            assert(upto(b, rank, file + 1) =~= upto(b, rank, file));
        } else {
            let rest = fen::rank_text(b, rank, file + 1, 0);
            let n = fen::run_text(run).len();
            lemma_letter(pc);
            assert(w.len() == n + 1 + rest.len());
            assert(t[i + n] == w[n as int]);
            assert(w[n as int] == pc.letter());
            if run > 0 {
                assert(t[i + 0] == w[0]);
                assert(w[0] == 48 + run);
            }
            let acc = upto(b, rank, file);
            assert(fen::scan_board(t, i, file - run, rank, acc) == fen::scan_board(
                t,
                i + n,
                file,
                rank,
                acc,
            ));
            assert(fen::scan_board(t, i + n, file, rank, acc) == fen::scan_board(
                t,
                i + n + 1,
                file + 1,
                rank,
                acc.update(8 * rank + file, pc),
            ));
            assert(stands_at(t, i + n + 1, text::ascii(rest))) by {
                assert forall|k: int| 0 <= k < rest.len() implies t[i + n + 1 + k]
                    == #[trigger] text::ascii(rest)[k] by {
                    assert(w[n + 1 + k] == text::ascii(rest)[k]);
                    assert(t[i + (n + 1 + k)] == w[n + 1 + k]);
                }
            }
            lemma_rank(t, i + n + 1, b, rank, file + 1, 0);
            assert(upto(b, rank, file).update(8 * rank + file, pc) =~= upto(b, rank, file + 1));
        }
    }
}

proof fn lemma_board(t: Seq<u8>, i: int, b: Seq<Piece>, rank: int)
    requires
        placement::clean(b),
        0 <= rank < 8,
        stands_at(t, i, text::ascii(fen::board_text(b, rank))),
        i + fen::board_text(b, rank).len() == t.len(),
    ensures
        fen::scan_board(t, i, 0, rank, upto(b, rank, 0)) == Some((8int, 0int, b)),
        visible(text::ascii(fen::board_text(b, rank))),
        fen::board_text(b, rank).len() > 0,
    decreases rank,
{
    let head = fen::rank_text(b, rank, 0, 0);
    let w = text::ascii(fen::board_text(b, rank));
    lemma_rank_visible(b, rank, 0, 0);
    if rank <= 0 {
        lemma_rank(t, i, b, 0, 0, 0);
        assert(upto(b, 0, 8) =~= b);
    } else {
        let rest = fen::board_text(b, rank - 1);
        let n = head.len();
        assert(w.len() == n + 1 + rest.len());
        assert(stands_at(t, i, text::ascii(head))) by {
            assert forall|k: int| 0 <= k < n implies t[i + k] == #[trigger] text::ascii(head)[k] by {
                assert(w[k] == text::ascii(head)[k]);
            }
        }
        assert(stands_at(t, i + n + 1, text::ascii(rest))) by {
            assert forall|k: int| 0 <= k < rest.len() implies t[i + n + 1 + k]
                == #[trigger] text::ascii(rest)[k] by {
                assert(w[n + 1 + k] == text::ascii(rest)[k]);
                assert(t[i + (n + 1 + k)] == w[n + 1 + k]);
            }
        }
        lemma_rank(t, i, b, rank, 0, 0);
        lemma_board(t, i + n + 1, b, rank - 1);
        assert(w[n as int] == 47);
        assert(t[i + n] == w[n as int]);
        assert(upto(b, rank, 8) =~= upto(b, rank - 1, 0));
        assert forall|k: int| 0 <= k < w.len() implies 33 <= #[trigger] w[k] <= 126 by {
            if k < n {
                assert(w[k] == text::ascii(head)[k]);
            } else if k > n {
                assert(w[k] == text::ascii(rest)[k - n - 1]);
            }
        }
    }
}

/// The placement field reads back.
pub proof fn law_placements_read_back(b: Seq<Piece>)
    requires
        placement::clean(b),
    ensures
        fen::read_board(text::ascii(fen::board_text(b, 7))) == Some(b),
{
    let t = text::ascii(fen::board_text(b, 7));
    lemma_board(t, 0, b, 7);
    assert(upto(b, 7, 0) =~= fen::no_pieces());
}

// ---------------------------------------------------------------------------
// The castling field
// ---------------------------------------------------------------------------

/// The colour that a right of `c` is written for.
pub open spec fn shown_side(c: Color, swap: bool) -> Color {
    if swap {
        c.opp()
    } else {
        c
    }
}

/// The letter that is written for a right names the rook on `r` of the placement `b`, on the
/// right side of the king.
#[verifier::opaque]
pub open spec fn letter_names(
    b: Seq<Piece>,
    rooks: Seq<SquareOrNone>,
    chess960: bool,
    swap: bool,
    c: Color,
    king_side: bool,
    r: int,
) -> bool {
    let letter = fen::right_letter(
        rooks[CastlingRights::wing(c, king_side).nibble()],
        king_side,
        (c == Color::Black) != swap,
        chess960,
    );
    let us = shown_side(c, swap);
    &&& 33 <= letter as int <= 126
    &&& letter as u8 != 45
    &&& fen::letter_color(letter as u8) == us
    &&& fen::names_rook(b, letter as u8, r)
    &&& (r > placement::king(b, us)) == king_side
}

/// The rights after the one of `c` is read, when it is held.
pub open spec fn with_right(
    x: Rights,
    b: Seq<Piece>,
    rights: CastlingRights,
    swap: bool,
    c: Color,
    king_side: bool,
    r: int,
) -> Rights {
    if rights.has(CastlingRights::wing(c, king_side)) {
        fen::record(x, b, shown_side(c, swap), r)
    } else {
        x
    }
}

proof fn lemma_right_read(
    t: Seq<u8>,
    i: int,
    b: Seq<Piece>,
    x: Rights,
    rights: CastlingRights,
    rooks: Seq<SquareOrNone>,
    chess960: bool,
    swap: bool,
    c: Color,
    king_side: bool,
    r: int,
)
    requires
        stands_at(
            t,
            i,
            text::ascii(fen::right_text(rights, rooks, chess960, swap, c, king_side)),
        ),
        rights.has(CastlingRights::wing(c, king_side)) ==> letter_names(
            b,
            rooks,
            chess960,
            swap,
            c,
            king_side,
            r,
        ),
    ensures
        fen::scan_castling(t, i, b, x) == fen::scan_castling(
            t,
            i + fen::right_text(rights, rooks, chess960, swap, c, king_side).len(),
            b,
            with_right(x, b, rights, swap, c, king_side, r),
        ),
        visible(text::ascii(fen::right_text(rights, rooks, chess960, swap, c, king_side))),
        forall|k: int|
            0 <= k < fen::right_text(rights, rooks, chess960, swap, c, king_side).len()
                ==> #[trigger] text::ascii(
                fen::right_text(rights, rooks, chess960, swap, c, king_side),
            )[k] != 45,
        fen::right_text(rights, rooks, chess960, swap, c, king_side).len() == (if rights.has(
            CastlingRights::wing(c, king_side),
        ) {
            1int
        } else {
            0
        }),
{
    reveal(fen::right_text);
    reveal(letter_names);
    if rights.has(CastlingRights::wing(c, king_side)) {
        let w = text::ascii(fen::right_text(rights, rooks, chess960, swap, c, king_side));
        assert(t[i + 0] == w[0]);
        fen::lemma_names_one(b, w[0], r);
    }
}

/// The right of `c` on the given wing is held.
pub open spec fn held(rights: CastlingRights, c: Color, king_side: bool) -> bool {
    rights.has(CastlingRights::wing(c, king_side))
}

/// The four rights of `x` are those of `rights`, each with its rook.
pub open spec fn rights_read(
    x: Rights,
    rights: CastlingRights,
    swap: bool,
    at: spec_fn(Color, bool) -> int,
) -> bool {
    forall|c: Color, ks: bool| #![trigger held(rights, c, ks)] {
        let cr = CastlingRights::wing(shown_side(c, swap), ks);
        &&& x.rights.has(cr) == held(rights, c, ks)
        &&& held(rights, c, ks) ==> x.rook_square[cr.nibble()] == SquareOrNone::At(
            Square::at(at(c, ks)),
        )
    }
}

/// Two sequences of bytes one after the other.
proof fn lemma_parts(s: Seq<u8>, i: int, a: Seq<char>, b: Seq<char>)
    requires
        stands_at(s, i, text::ascii(a + b)),
    ensures
        stands_at(s, i, text::ascii(a)),
        stands_at(s, i + a.len(), text::ascii(b)),
{
    let w = text::ascii(a + b);
    assert forall|k: int| 0 <= k < a.len() implies s[i + k] == #[trigger] text::ascii(a)[k] by {
        assert(w[k] == text::ascii(a)[k]);
    }
    assert forall|k: int| 0 <= k < b.len() implies s[i + a.len() + k] == #[trigger] text::ascii(b)[k] by {
        assert(w[a.len() + k] == text::ascii(b)[k]);
        assert(s[i + (a.len() + k)] == w[a.len() + k]);
    }
}

/// The rights after all four are read.
#[verifier::opaque]
pub open spec fn all_read(
    b: Seq<Piece>,
    rights: CastlingRights,
    swap: bool,
    at: spec_fn(Color, bool) -> int,
) -> Rights {
    let x1 = with_right(
        fen::no_rights(),
        b,
        rights,
        swap,
        Color::White,
        true,
        at(Color::White, true),
    );
    let x2 = with_right(x1, b, rights, swap, Color::White, false, at(Color::White, false));
    let x3 = with_right(x2, b, rights, swap, Color::Black, true, at(Color::Black, true));
    with_right(x3, b, rights, swap, Color::Black, false, at(Color::Black, false))
}

proof fn lemma_all_read(
    b: Seq<Piece>,
    rights: CastlingRights,
    rooks: Seq<SquareOrNone>,
    chess960: bool,
    swap: bool,
    at: spec_fn(Color, bool) -> int,
)
    requires
        forall|c: Color, ks: bool|
            rights.has(#[trigger] CastlingRights::wing(c, ks)) ==> letter_names(
                b,
                rooks,
                chess960,
                swap,
                c,
                ks,
                at(c, ks),
            ),
    ensures
        rights_read(all_read(b, rights, swap, at), rights, swap, at),
{
    let x = all_read(b, rights, swap, at);
    assert forall|c: Color, ks: bool| #![trigger held(rights, c, ks)] ({
        let cr = CastlingRights::wing(shown_side(c, swap), ks);
        &&& x.rights.has(cr) == held(rights, c, ks)
        &&& held(rights, c, ks) ==> x.rook_square[cr.nibble()] == SquareOrNone::At(
            Square::at(at(c, ks)),
        )
    }) by {
        lemma_one_read(b, rights, rooks, chess960, swap, at, c, ks);
    }
}

proof fn lemma_one_read(
    b: Seq<Piece>,
    rights: CastlingRights,
    rooks: Seq<SquareOrNone>,
    chess960: bool,
    swap: bool,
    at: spec_fn(Color, bool) -> int,
    c: Color,
    ks: bool,
)
    requires
        forall|c: Color, ks: bool|
            rights.has(#[trigger] CastlingRights::wing(c, ks)) ==> letter_names(
                b,
                rooks,
                chess960,
                swap,
                c,
                ks,
                at(c, ks),
            ),
    ensures
        ({
            let x = all_read(b, rights, swap, at);
            let cr = CastlingRights::wing(shown_side(c, swap), ks);
            &&& x.rights.has(cr) == rights.has(CastlingRights::wing(c, ks))
            &&& rights.has(CastlingRights::wing(c, ks)) ==> x.rook_square[cr.nibble()]
                == SquareOrNone::At(Square::at(at(c, ks)))
        }),
{
    reveal(letter_names);
    reveal(all_read);
    let w1 = CastlingRights::wing(Color::White, true);
    let w2 = CastlingRights::wing(Color::White, false);
    let w3 = CastlingRights::wing(Color::Black, true);
    let w4 = CastlingRights::wing(Color::Black, false);
    assert(w1.nibble() == 1 && w2.nibble() == 2 && w3.nibble() == 4 && w4.nibble() == 8);
}

/// The castling field is scanned letter by letter.
proof fn lemma_scan_rights(
    t: Seq<u8>,
    b: Seq<Piece>,
    rights: CastlingRights,
    rooks: Seq<SquareOrNone>,
    chess960: bool,
    swap: bool,
    at: spec_fn(Color, bool) -> int,
)
    requires
        forall|c: Color, ks: bool|
            rights.has(#[trigger] CastlingRights::wing(c, ks)) ==> letter_names(
                b,
                rooks,
                chess960,
                swap,
                c,
                ks,
                at(c, ks),
            ),
        rights != CastlingRights::of(false, false, false, false),
        t == text::ascii(fen::castling_text(rights, rooks, chess960, swap)),
    ensures
        visible(t),
        t.len() > 0,
        t[0] != 45,
        fen::scan_castling(t, 0, b, fen::no_rights()) == Some(all_read(b, rights, swap, at)),
{
    reveal(all_read);
    let x0 = fen::no_rights();
    let a = fen::right_text(rights, rooks, chess960, swap, Color::White, true);
    let c = fen::right_text(rights, rooks, chess960, swap, Color::White, false);
    let d = fen::right_text(rights, rooks, chess960, swap, Color::Black, true);
    let e = fen::right_text(rights, rooks, chess960, swap, Color::Black, false);
    assert(stands_at(t, 0, text::ascii(a + c + d + e)));
    lemma_parts(t, 0, a + c + d, e);
    lemma_parts(t, 0, a + c, d);
    lemma_parts(t, 0, a, c);
    let r1 = at(Color::White, true);
    let r2 = at(Color::White, false);
    let r3 = at(Color::Black, true);
    let r4 = at(Color::Black, false);
    let x1 = with_right(x0, b, rights, swap, Color::White, true, r1);
    let x2 = with_right(x1, b, rights, swap, Color::White, false, r2);
    let x3 = with_right(x2, b, rights, swap, Color::Black, true, r3);
    let i1 = a.len() as int;
    let i2 = (a + c).len() as int;
    let i3 = (a + c + d).len() as int;
    assert(rights.has(CastlingRights::wing(Color::White, true)) || rights.has(
        CastlingRights::wing(Color::White, false),
    ) || rights.has(CastlingRights::wing(Color::Black, true)) || rights.has(
        CastlingRights::wing(Color::Black, false),
    ));
    lemma_right_read(t, 0, b, x0, rights, rooks, chess960, swap, Color::White, true, r1);
    lemma_right_read(t, i1, b, x1, rights, rooks, chess960, swap, Color::White, false, r2);
    lemma_right_read(t, i2, b, x2, rights, rooks, chess960, swap, Color::Black, true, r3);
    lemma_right_read(t, i3, b, x3, rights, rooks, chess960, swap, Color::Black, false, r4);
    assert forall|k: int| 0 <= k < t.len() implies 33 <= #[trigger] t[k] <= 126 && t[k] != 45 by {
        if k < i1 {
            assert(t[0 + k] == text::ascii(a)[k]);
        } else if k < i2 {
            assert(t[i1 + (k - i1)] == text::ascii(c)[k - i1]);
        } else if k < i3 {
            assert(t[i2 + (k - i2)] == text::ascii(d)[k - i2]);
        } else {
            assert(t[i3 + (k - i3)] == text::ascii(e)[k - i3]);
        }
    }
}

/// The castling field reads back, for the placement that is shown.
proof fn lemma_castling(
    b: Seq<Piece>,
    rights: CastlingRights,
    rooks: Seq<SquareOrNone>,
    chess960: bool,
    swap: bool,
    at: spec_fn(Color, bool) -> int,
)
    requires
        forall|c: Color, ks: bool|
            rights.has(#[trigger] CastlingRights::wing(c, ks)) ==> letter_names(
                b,
                rooks,
                chess960,
                swap,
                c,
                ks,
                at(c, ks),
            ),
    ensures
        ({
            let t = text::ascii(fen::castling_text(rights, rooks, chess960, swap));
            &&& visible(t)
            &&& t.len() > 0
            &&& fen::read_castling(t, b) matches Some(x) && rights_read(x, rights, swap, at)
        }),
{
    let t = text::ascii(fen::castling_text(rights, rooks, chess960, swap));
    if rights == CastlingRights::of(false, false, false, false) {
        assert(t =~= seq![45u8]);
        assert(rights_read(fen::no_rights(), rights, swap, at));
    } else {
        lemma_scan_rights(t, b, rights, rooks, chess960, swap, at);
        lemma_all_read(b, rights, rooks, chess960, swap, at);
        assert(t != seq![45u8]);
    }
}

// ---------------------------------------------------------------------------
// The whole record
// ---------------------------------------------------------------------------

proof fn lemma_decimal_visible(n: int)
    ensures
        visible(text::ascii(text::signed_decimal(n))),
        text::signed_decimal(n).len() > 0,
{
    let t = text::signed_decimal(n);
    let w = text::ascii(t);
    let m: nat = if n < 0 {
        (-n) as nat
    } else {
        n as nat
    };
    text::lemma_decimal(m);
    assert forall|i: int| 0 <= i < w.len() implies 33 <= #[trigger] w[i] <= 126 by {
        if n < 0 {
            if i > 0 {
                assert(t[i] == text::decimal(m)[i - 1]);
            }
        } else {
            assert(t[i] == text::decimal(m)[i]);
        }
    }
}

proof fn lemma_visible_char(a: Seq<char>, i: int)
    requires
        visible(text::ascii(a)),
        0 <= i < a.len(),
        0 <= a[i] as int <= 127,
    ensures
        33 <= a[i] as int <= 126,
{
    let c = a[i];
    assert(0 <= c as int <= 127);
    assert(c as u8 as int == c as int);
    assert(text::ascii(a)[i] == c as u8);
}

/// The characters of the fields are ASCII.
pub open spec fn narrow(a: Seq<char>) -> bool {
    forall|i: int| 0 <= i < a.len() ==> 0 <= #[trigger] a[i] as int <= 127
}

/// The words of a record are its six fields.
proof fn lemma_words(
    b: Seq<Piece>,
    side: Color,
    f2: Seq<char>,
    ep: Seq<char>,
    rule50: int,
    number: int,
    s: Seq<u8>,
)
    requires
        placement::clean(b),
        visible(text::ascii(f2)),
        narrow(f2),
        f2.len() > 0,
        visible(text::ascii(ep)),
        narrow(ep),
        ep.len() > 0,
        i32::MIN <= rule50 <= i32::MAX,
        i32::MIN <= number <= i32::MAX,
        s == vstd::utf8::encode_utf8(
            six(
                fen::board_text(b, 7),
                seq![fen::side_letter(side)],
                f2,
                ep,
                text::signed_decimal(rule50),
                text::signed_decimal(number),
            ),
        ),
    ensures
        text::word(s, 0) matches Some(w) && fen::read_board(w) == Some(b),
        fen::read_side(text::word(s, 1)) == Some(side),
        text::word(s, 2) == Some(text::ascii(f2)),
        text::word(s, 3) == Some(text::ascii(ep)),
        fen::or_number(text::word(s, 4), 0) == rule50,
        fen::or_number(text::word(s, 5), 1) == number,
{
    let f0 = fen::board_text(b, 7);
    let f1 = seq![fen::side_letter(side)];
    let f4 = text::signed_decimal(rule50);
    let f5 = text::signed_decimal(number);
    let all = six(f0, f1, f2, ep, f4, f5);
    lemma_board(text::ascii(f0), 0, b, 7);
    law_placements_read_back(b);
    lemma_decimal_visible(rule50);
    lemma_decimal_visible(number);
    text::law_decimal_round_trip(rule50);
    text::law_decimal_round_trip(number);
    assert(visible(text::ascii(f1)));
    assert(plain_text(all)) by {
        lemma_board_narrow(b, 7);
        lemma_decimal_narrow(rule50);
        lemma_decimal_narrow(number);
        assert forall|i: int| 0 <= i < all.len() implies 32 <= #[trigger] all[i] as int <= 126 by {
            let i1 = f0.len() + 1;
            let i2 = i1 + f1.len() + 1;
            let i3 = i2 + f2.len() + 1;
            let i4 = i3 + ep.len() + 1;
            let i5 = i4 + f4.len() + 1;
            if i < i1 - 1 {
                assert(all[i] == f0[i]);
                lemma_visible_char(f0, i);
            } else if i1 <= i < i2 - 1 {
                assert(all[i] == f1[i - i1]);
            } else if i2 <= i < i3 - 1 {
                assert(all[i] == f2[i - i2]);
                lemma_visible_char(f2, i - i2);
            } else if i3 <= i < i4 - 1 {
                assert(all[i] == ep[i - i3]);
                lemma_visible_char(ep, i - i3);
            } else if i4 <= i < i5 - 1 {
                assert(all[i] == f4[i - i4]);
                lemma_visible_char(f4, i - i4);
            } else if i5 <= i {
                assert(all[i] == f5[i - i5]);
                lemma_visible_char(f5, i - i5);
            } else {
                assert(all[i] == ' ');
            }
        }
    }
    lemma_encoding(all);
    lemma_six(f0, f1, f2, ep, f4, f5, s);
    assert(text::ascii(f1) =~= (match side {
        Color::White => seq![119u8],
        Color::Black => seq![98u8],
    }));
    assert(seq![119u8][0] != seq![98u8][0]);
}

/// What the six fields of a record say.
proof fn lemma_fields(
    b: Seq<Piece>,
    side: Color,
    rights: CastlingRights,
    rooks: Seq<SquareOrNone>,
    chess960: bool,
    swap: bool,
    at: spec_fn(Color, bool) -> int,
    ep: Seq<char>,
    target: SquareOrNone,
    rule50: int,
    number: int,
    s: Seq<u8>,
)
    requires
        placement::clean(b),
        forall|c: Color, ks: bool|
            rights.has(#[trigger] CastlingRights::wing(c, ks)) ==> letter_names(
                b,
                rooks,
                chess960,
                swap,
                c,
                ks,
                at(c, ks),
            ),
        visible(text::ascii(ep)),
        narrow(ep),
        ep.len() > 0,
        fen::read_ep(text::ascii(ep)) == Some(target),
        i32::MIN <= rule50 <= i32::MAX,
        i32::MIN <= number <= i32::MAX,
        s == vstd::utf8::encode_utf8(
            six(
                fen::board_text(b, 7),
                seq![fen::side_letter(side)],
                fen::castling_text(rights, rooks, chess960, swap),
                ep,
                text::signed_decimal(rule50),
                text::signed_decimal(number),
            ),
        ),
    ensures
        text::word(s, 0) matches Some(w) && fen::read_board(w) == Some(b),
        fen::read_side(text::word(s, 1)) == Some(side),
        fen::read_castling(fen::or_dash(text::word(s, 2)), b) matches Some(x) && rights_read(
            x,
            rights,
            swap,
            at,
        ),
        fen::read_ep(fen::or_dash(text::word(s, 3))) == Some(target),
        fen::or_number(text::word(s, 4), 0) == rule50,
        fen::or_number(text::word(s, 5), 1) == number,
{
    lemma_castling(b, rights, rooks, chess960, swap, at);
    lemma_castling_narrow(b, rights, rooks, chess960, swap, at);
    lemma_words(
        b,
        side,
        fen::castling_text(rights, rooks, chess960, swap),
        ep,
        rule50,
        number,
        s,
    );
}

proof fn lemma_rank_narrow(b: Seq<Piece>, rank: int, file: int, run: int)
    requires
        placement::clean(b),
        0 <= rank < 8,
        0 <= run <= file <= 8,
    ensures
        narrow(fen::rank_text(b, rank, file, run)),
    decreases 8 - file,
{
    if file < 8 {
        let pc = b[8 * rank + file];
        if pc == Piece::NONE {
            lemma_rank_narrow(b, rank, file + 1, run + 1);
        } else {
            lemma_rank_narrow(b, rank, file + 1, 0);
            lemma_letter(pc);
        }
    }
}

proof fn lemma_board_narrow(b: Seq<Piece>, rank: int)
    requires
        placement::clean(b),
        0 <= rank < 8,
    ensures
        narrow(fen::board_text(b, rank)),
    decreases rank,
{
    lemma_rank_narrow(b, rank, 0, 0);
    if rank > 0 {
        lemma_board_narrow(b, rank - 1);
    }
}

proof fn lemma_castling_narrow(
    b: Seq<Piece>,
    rights: CastlingRights,
    rooks: Seq<SquareOrNone>,
    chess960: bool,
    swap: bool,
    at: spec_fn(Color, bool) -> int,
)
    requires
        forall|c: Color, ks: bool|
            rights.has(#[trigger] CastlingRights::wing(c, ks)) ==> letter_names(
                b,
                rooks,
                chess960,
                swap,
                c,
                ks,
                at(c, ks),
            ),
    ensures
        narrow(fen::castling_text(rights, rooks, chess960, swap)),
{
    reveal(fen::right_text);
    reveal(letter_names);
    assert forall|c: Color, ks: bool| narrow(
        #[trigger] fen::right_text(rights, rooks, chess960, swap, c, ks),
    ) by {
        if rights.has(CastlingRights::wing(c, ks)) {
            assert(letter_names(b, rooks, chess960, swap, c, ks, at(c, ks)));
        }
    }
}

proof fn lemma_decimal_narrow(n: int)
    ensures
        narrow(text::signed_decimal(n)),
{
    let t = text::signed_decimal(n);
    let m: nat = if n < 0 {
        (-n) as nat
    } else {
        n as nat
    };
    text::lemma_decimal(m);
    assert forall|i: int| 0 <= i < t.len() implies 0 <= #[trigger] t[i] as int <= 127 by {
        if n < 0 {
            if i > 0 {
                assert(t[i] == text::decimal(m)[i - 1]);
            }
        } else {
            assert(t[i] == text::decimal(m)[i]);
        }
    }
}

/// A castling letter finds the rook of every right that is held: in standard chess the
/// outermost one on its wing, in Chess960 one on the king's rank.
pub open spec fn rooks_nameable(
    b: Seq<Piece>,
    rights: CastlingRights,
    rooks: Seq<SquareOrNone>,
    chess960: bool,
) -> bool {
    forall|c: Color, ks: bool| #![trigger CastlingRights::wing(c, ks)]
        rights.has(CastlingRights::wing(c, ks)) ==> {
            let r = rooks[CastlingRights::wing(c, ks).nibble()].byte();
            if chess960 {
                r / 8 == placement::king(b, c) / 8
            } else {
                fen::outer_rook(b, c, ks, r)
            }
        }
}

/// The ply count belongs to the side to move: even for White, odd for Black.
pub open spec fn in_turn(game_ply: int, stm: Color) -> bool {
    game_ply % 2 == (match stm {
        Color::White => 0int,
        Color::Black => 1int,
    })
}

proof fn lemma_names_own(p: Position, c: Color, ks: bool)
    requires
        p.wf(),
        rooks_nameable(
            p.board@,
            p.top().castling_rights,
            p.castling.rook_square@,
            p.chess960,
        ),
        p.top().castling_rights.has(CastlingRights::wing(c, ks)),
    ensures
        letter_names(
            p.board@,
            p.castling.rook_square@,
            p.chess960,
            false,
            c,
            ks,
            p.castling.rook_square@[CastlingRights::wing(c, ks).nibble()].byte(),
        ),
{
    broadcast use Square::lemma_idx;

    reveal(letter_names);
    assert(p.castling.right_wf(p.board@, c, ks));
    placement::lemma_king(p.board@, c);
    let r = p.castling.rook_square@[CastlingRights::wing(c, ks).nibble()].byte();
    assert(r == 8 * (r / 8) + r % 8);
}

/// The record of a position in which the side that moved is safe reads back as the position:
/// the placement, the side to move, the rights with their rooks, the en-passant target and both
/// counters.
pub proof fn law_records_read_back(p: Position)
    requires
        p.wf(),
        rooks_nameable(
            p.board@,
            p.top().castling_rights,
            p.castling.rook_square@,
            p.chess960,
        ),
        in_turn(p.game_ply as int, p.side_to_move),
        !placement::attacked(
            p.board@,
            placement::occ(p.board@),
            p.side_to_move,
            placement::king(p.board@, p.side_to_move.opp()),
        ),
    ensures
        fen::read_fen(vstd::utf8::encode_utf8(p.record_text(false))) matches Ok(su) && restores(su, p),
{
    broadcast use {Square::lemma_idx, Square::lemma_at, Square::lemma_inj};

    let b = p.board@;
    let st = p.top();
    let rooks = p.castling.rook_square@;
    let at = |c: Color, ks: bool| rooks[CastlingRights::wing(c, ks).nibble()].byte();
    let ep = fen::ep_text(st.ep_square, false);
    let number = fen::move_number(p.game_ply as int, p.side_to_move);
    let s = vstd::utf8::encode_utf8(p.record_text(false));
    assert(p.record_text(false) =~= six(
        fen::board_text(b, 7),
        seq![fen::side_letter(p.side_to_move)],
        fen::castling_text(st.castling_rights, rooks, p.chess960, false),
        ep,
        text::signed_decimal(st.rule50 as int),
        text::signed_decimal(number),
    ));
    assert forall|c: Color, ks: bool|
        st.castling_rights.has(#[trigger] CastlingRights::wing(c, ks)) implies letter_names(
        b,
        rooks,
        p.chess960,
        false,
        c,
        ks,
        at(c, ks),
    ) by {
        lemma_names_own(p, c, ks);
    }
    match st.ep_square {
        SquareOrNone::At(e) => {
            let t = text::ascii(ep);
            assert(t[0] == 97 + e.idx() % 8);
            assert(t[1] == 49 + e.idx() / 8);
            assert(8 * (e.idx() / 8) + e.idx() % 8 == e.idx());
            assert(t != seq![45u8]);
        },
        SquareOrNone::NONE => {
            assert(text::ascii(ep) =~= seq![45u8]);
        },
    }
    lemma_fields(
        b,
        p.side_to_move,
        st.castling_rights,
        rooks,
        p.chess960,
        false,
        at,
        ep,
        st.ep_square,
        st.rule50 as int,
        number,
        s,
    );
    let x = fen::read_castling(fen::or_dash(text::word(s, 2)), b)->0;
    assert(x.rights == st.castling_rights) by {
        assert(x.rights.has(CastlingRights::wing(Color::White, true)) == held(
            st.castling_rights,
            Color::White,
            true,
        ));
        assert(x.rights.has(CastlingRights::wing(Color::White, false)) == held(
            st.castling_rights,
            Color::White,
            false,
        ));
        assert(x.rights.has(CastlingRights::wing(Color::Black, true)) == held(
            st.castling_rights,
            Color::Black,
            true,
        ));
        assert(x.rights.has(CastlingRights::wing(Color::Black, false)) == held(
            st.castling_rights,
            Color::Black,
            false,
        ));
    }
    assert forall|c: Color, ks: bool|
        x.rights.has(
            #[trigger] CastlingRights::wing(c, ks),
        ) implies x.rook_square[CastlingRights::wing(c, ks).nibble()]
        == rooks[CastlingRights::wing(c, ks).nibble()] by {
        assert(held(st.castling_rights, c, ks));
        assert(p.castling.right_wf(b, c, ks));
    }
}

// ---------------------------------------------------------------------------
// The mirrored record
// ---------------------------------------------------------------------------

/// The rook of every right that is held stands on the king's rank.
pub open spec fn rooks_level(
    b: Seq<Piece>,
    rights: CastlingRights,
    rooks: Seq<SquareOrNone>,
) -> bool {
    forall|c: Color, ks: bool| #![trigger CastlingRights::wing(c, ks)]
        rights.has(CastlingRights::wing(c, ks)) ==> rooks[CastlingRights::wing(
            c,
            ks,
        ).nibble()].byte() / 8 == placement::king(b, c) / 8
}

/// The mirror image of a square, where there is one.
pub open spec fn mirrored_target(ep: SquareOrNone) -> SquareOrNone {
    match ep {
        SquareOrNone::At(e) => SquareOrNone::At(Square::at(Square::mirrored(e.idx()))),
        SquareOrNone::NONE => SquareOrNone::NONE,
    }
}

/// The ply at which the other side is to move, with the same move number.
pub open spec fn other_ply(game_ply: int, stm: Color) -> int {
    2 * (fen::move_number(game_ply, stm) - 1) + (match stm {
        Color::White => 1int,
        Color::Black => 0int,
    })
}

/// The setup is the mirror image of the position, with the colours exchanged.
pub open spec fn mirrors(su: Setup, p: Position) -> bool {
    &&& su.b == fen::mirrored(p.board@)
    &&& su.stm == p.side_to_move.opp()
    &&& forall|c: Color, ks: bool| #![trigger held(p.top().castling_rights, c, ks)] {
        let other = CastlingRights::wing(c.opp(), ks);
        &&& su.castling.rights.has(other) == held(p.top().castling_rights, c, ks)
        &&& held(p.top().castling_rights, c, ks) ==> su.castling.rook_square[other.nibble()]
            == SquareOrNone::At(Square::at(rooks_mirrored(p)(c, ks)))
    }
    &&& su.ep == mirrored_target(p.top().ep_square)
    &&& su.rule50 == p.top().rule50
    &&& su.game_ply == other_ply(p.game_ply as int, p.side_to_move)
}

/// The position can be written mirrored and read again.
pub open spec fn flippable(p: Position) -> bool {
    &&& p.wf()
    &&& rooks_nameable(p.board@, p.top().castling_rights, p.castling.rook_square@, p.chess960)
    &&& rooks_level(p.board@, p.top().castling_rights, p.castling.rook_square@)
    &&& !placement::attacked(
        p.board@,
        placement::occ(p.board@),
        p.side_to_move,
        placement::king(p.board@, p.side_to_move.opp()),
    )
}

proof fn lemma_outer_mirrored(b: Seq<Piece>, c: Color, ks: bool, r: int)
    requires
        placement::clean(b),
        fen::outer_rook(b, c, ks, r),
    ensures
        fen::outer_rook(fen::mirrored(b), c.opp(), ks, Square::mirrored(r)),
{
    let m = fen::mirrored(b);
    let s = Square::mirrored(r);
    mirror::law_mirroring_undoes_itself(r);
    mirror::lemma_piece_mirrored(b, r);
    assert(m[s] == Piece::of(c.opp(), PieceType::Rook));
    assert(fen::home_rook(m, c.opp(), s));
    assert forall|j: int| #[trigger] fen::home_rook(m, c.opp(), j) implies (if ks {
        j <= s
    } else {
        s <= j
    }) by {
        let i = Square::mirrored(j);
        mirror::law_mirroring_undoes_itself(j);
        mirror::lemma_piece_mirrored(b, i);
        mirror::lemma_recolored(b[i]);
        assert(c.opp().opp() == c);
        assert(fen::home_rook(b, c, i));
    }
}

proof fn lemma_names_mirrored(p: Position, c: Color, ks: bool)
    requires
        flippable(p),
        p.top().castling_rights.has(CastlingRights::wing(c, ks)),
    ensures
        letter_names(
            fen::mirrored(p.board@),
            p.castling.rook_square@,
            p.chess960,
            true,
            c,
            ks,
            Square::mirrored(
                p.castling.rook_square@[CastlingRights::wing(c, ks).nibble()].byte(),
            ),
        ),
{
    broadcast use Square::lemma_idx;

    reveal(letter_names);
    let b = p.board@;
    let m = fen::mirrored(b);
    assert(p.castling.right_wf(b, c, ks));
    placement::lemma_king(b, c);
    mirror::lemma_kings_mirrored(b, c);
    let k = placement::king(b, c);
    let r = p.castling.rook_square@[CastlingRights::wing(c, ks).nibble()].byte();
    mirror::law_mirroring_undoes_itself(r);
    mirror::law_mirroring_undoes_itself(k);
    mirror::lemma_piece_mirrored(b, r);
    assert(m[Square::mirrored(r)] == Piece::of(c.opp(), PieceType::Rook));
    if !p.chess960 {
        lemma_outer_mirrored(b, c, ks, r);
    }
}

proof fn lemma_ep_mirrored(b: Seq<Piece>, stm: Color, e: int)
    requires
        placement::clean(b),
        position::ep_ok(b, stm, e),
    ensures
        position::ep_ok(fen::mirrored(b), stm.opp(), Square::mirrored(e)),
{
    let m = fen::mirrored(b);
    let p = choose|p: int| #[trigger] position::ep_taker(b, stm, e, p);
    let behind = e - Direction::forward(stm).delta();
    mirror::law_mirroring_undoes_itself(e);
    mirror::law_mirroring_undoes_itself(p);
    mirror::law_mirroring_undoes_itself(behind);
    mirror::lemma_piece_mirrored(b, e);
    mirror::lemma_piece_mirrored(b, p);
    mirror::lemma_piece_mirrored(b, behind);
    assert(Square::mirrored(behind) == Square::mirrored(e) - Direction::forward(
        stm.opp(),
    ).delta());
    assert(position::ep_taker(m, stm.opp(), Square::mirrored(e), Square::mirrored(p)));
}

proof fn lemma_roomy_mirrored(b: Seq<Piece>)
    requires
        placement::clean(b),
        state::roomy(b),
    ensures
        state::roomy(fen::mirrored(b)),
{
    assert forall|pc: Piece| pc.is_real() implies #[trigger] tally::count_of(fen::mirrored(b), pc)
        <= 56 by {
        mirror::lemma_count_mirrored(b, pc.side(), pc.kind());
        assert(pc == Piece::of(pc.side(), pc.kind()));
        assert(Piece::of(pc.side().opp(), pc.kind()).is_real());
    }
}

/// The rooks of the mirror image.
pub open spec fn rooks_mirrored(p: Position) -> spec_fn(Color, bool) -> int {
    |c: Color, ks: bool|
        Square::mirrored(
            p.castling.rook_square@[CastlingRights::wing(c, ks).nibble()].byte(),
        )
}

/// The mirror image can be set up.
proof fn lemma_image(p: Position)
    requires
        flippable(p),
    ensures
        ({
            let m = fen::mirrored(p.board@);
            let stm = p.side_to_move.opp();
            &&& placement::clean(m)
            &&& placement::kings(m)
            &&& state::roomy(m)
            &&& !placement::attacked(
                m,
                placement::occ(m),
                stm,
                placement::king(m, stm.opp()),
            )
            &&& fen::keep_ep(m, stm, mirrored_target(p.top().ep_square)) == mirrored_target(
                p.top().ep_square,
            )
        }),
{
    broadcast use {Square::lemma_idx, Square::lemma_at};

    let b = p.board@;
    let stm = p.side_to_move;
    mirror::law_mirrored_placements(b);
    mirror::lemma_kings_kept(b);
    mirror::lemma_kings_mirrored(b, stm.opp());
    mirror::lemma_attacked_mirrored(b, stm, placement::king(b, stm.opp()));
    lemma_roomy_mirrored(b);
    assert(stm.opp().opp() == stm);
    if let SquareOrNone::At(e) = p.top().ep_square {
        lemma_ep_mirrored(b, stm, e.idx());
        mirror::law_mirroring_undoes_itself(e.idx());
    }
}

/// The mirrored target reads as the mirror image of the target.
proof fn lemma_image_target(p: Position)
    requires
        p.wf(),
    ensures
        ({
            let ep = fen::ep_text(p.top().ep_square, true);
            &&& visible(text::ascii(ep))
            &&& narrow(ep)
            &&& ep.len() > 0
            &&& fen::read_ep(text::ascii(ep)) == Some(mirrored_target(p.top().ep_square))
        }),
{
    broadcast use {Square::lemma_idx, Square::lemma_at};

    let ep = fen::ep_text(p.top().ep_square, true);
    match p.top().ep_square {
        SquareOrNone::At(e) => {
            let t = text::ascii(ep);
            assert(position::ep_ok(p.board@, p.side_to_move, e.idx()));
            mirror::law_mirroring_undoes_itself(e.idx());
            assert(t[0] == 97 + e.idx() % 8);
            assert(t[1] == 49 + Square::mirrored(e.idx()) / 8);
            assert(t != seq![45u8]);
        },
        SquareOrNone::NONE => {
            assert(text::ascii(ep) =~= seq![45u8]);
        },
    }
}

/// The mirrored record, field by field.
proof fn lemma_image_text(p: Position)
    ensures
        p.record_text(true) == six(
            fen::board_text(fen::mirrored(p.board@), 7),
            seq![fen::side_letter(p.side_to_move.opp())],
            fen::castling_text(
                p.top().castling_rights,
                p.castling.rook_square@,
                p.chess960,
                true,
            ),
            fen::ep_text(p.top().ep_square, true),
            text::signed_decimal(p.top().rule50 as int),
            text::signed_decimal(fen::move_number(p.game_ply as int, p.side_to_move)),
        ),
{
    assert(p.record_text(true) =~= six(
        fen::board_text(fen::mirrored(p.board@), 7),
        seq![fen::side_letter(p.side_to_move.opp())],
        fen::castling_text(p.top().castling_rights, p.castling.rook_square@, p.chess960, true),
        fen::ep_text(p.top().ep_square, true),
        text::signed_decimal(p.top().rule50 as int),
        text::signed_decimal(fen::move_number(p.game_ply as int, p.side_to_move)),
    ));
}

/// What the fields of the mirrored record say.
proof fn lemma_image_fields(p: Position, s: Seq<u8>)
    requires
        flippable(p),
        s == vstd::utf8::encode_utf8(p.record_text(true)),
    ensures
        text::word(s, 0) matches Some(w) && fen::read_board(w) == Some(fen::mirrored(p.board@)),
        fen::read_side(text::word(s, 1)) == Some(p.side_to_move.opp()),
        fen::read_castling(
            fen::or_dash(text::word(s, 2)),
            fen::mirrored(p.board@),
        ) matches Some(x) && rights_read(x, p.top().castling_rights, true, rooks_mirrored(p)),
        fen::read_ep(fen::or_dash(text::word(s, 3))) == Some(mirrored_target(p.top().ep_square)),
        fen::or_number(text::word(s, 4), 0) == p.top().rule50,
        fen::or_number(text::word(s, 5), 1) == fen::move_number(
            p.game_ply as int,
            p.side_to_move,
        ),
{
    let m = fen::mirrored(p.board@);
    let rights = p.top().castling_rights;
    let rooks = p.castling.rook_square@;
    let at = rooks_mirrored(p);
    lemma_image(p);
    lemma_image_target(p);
    lemma_image_text(p);
    assert forall|c: Color, ks: bool|
        rights.has(#[trigger] CastlingRights::wing(c, ks)) implies letter_names(
        m,
        rooks,
        p.chess960,
        true,
        c,
        ks,
        at(c, ks),
    ) by {
        lemma_names_mirrored(p, c, ks);
    }
    lemma_fields(
        m,
        p.side_to_move.opp(),
        rights,
        rooks,
        p.chess960,
        true,
        at,
        fen::ep_text(p.top().ep_square, true),
        mirrored_target(p.top().ep_square),
        p.top().rule50 as int,
        fen::move_number(p.game_ply as int, p.side_to_move),
        s,
    );
}

/// The letters of the castling field are visible, whatever they name.
proof fn lemma_letters(p: Position)
    requires
        p.wf(),
    ensures
        ({
            let t = fen::castling_text(
                p.top().castling_rights,
                p.castling.rook_square@,
                p.chess960,
                true,
            );
            &&& visible(text::ascii(t))
            &&& narrow(t)
            &&& t.len() > 0
        }),
{
    broadcast use Square::lemma_idx;

    reveal(fen::right_text);
    let rights = p.top().castling_rights;
    let rooks = p.castling.rook_square@;
    let t = fen::castling_text(rights, rooks, p.chess960, true);
    assert forall|i: int| 0 <= i < t.len() implies 33 <= #[trigger] t[i] as int <= 126 by {
        let a = fen::right_text(rights, rooks, p.chess960, true, Color::White, true);
        let b = fen::right_text(rights, rooks, p.chess960, true, Color::White, false);
        let c = fen::right_text(rights, rooks, p.chess960, true, Color::Black, true);
        let d = fen::right_text(rights, rooks, p.chess960, true, Color::Black, false);
        if rights != CastlingRights::of(false, false, false, false) {
            if i < a.len() {
                assert(t[i] == a[i]);
            } else if i < a.len() + b.len() {
                assert(t[i] == b[i - a.len()]);
            } else if i < a.len() + b.len() + c.len() {
                assert(t[i] == c[i - a.len() - b.len()]);
            } else {
                assert(t[i] == d[i - a.len() - b.len() - c.len()]);
            }
        }
    }
    assert forall|i: int| 0 <= i < t.len() implies 33 <= #[trigger] text::ascii(t)[i] <= 126 by {
        assert(33 <= t[i] as int <= 126);
    }
}

/// Whatever its castling field names, the mirrored record of a position that reads at all reads
/// as the mirror image of the placement, with the other side to move and the clock as it was.
pub proof fn law_flipped_placements_are_mirrored(p: Position, su: Setup)
    requires
        p.wf(),
        fen::read_fen(vstd::utf8::encode_utf8(p.record_text(true))) == Ok::<Setup, fen::FenError>(
            su,
        ),
    ensures
        su.b == fen::mirrored(p.board@),
        su.stm == p.side_to_move.opp(),
        su.rule50 == p.top().rule50,
{
    let s = vstd::utf8::encode_utf8(p.record_text(true));
    mirror::law_mirrored_placements(p.board@);
    lemma_image_target(p);
    lemma_image_text(p);
    lemma_letters(p);
    lemma_words(
        fen::mirrored(p.board@),
        p.side_to_move.opp(),
        fen::castling_text(p.top().castling_rights, p.castling.rook_square@, p.chess960, true),
        fen::ep_text(p.top().ep_square, true),
        p.top().rule50 as int,
        fen::move_number(p.game_ply as int, p.side_to_move),
        s,
    );
}

/// The mirrored record of a position reads as its mirror image.
pub proof fn law_flipping_mirrors_the_position(p: Position)
    requires
        flippable(p),
    ensures
        fen::read_fen(vstd::utf8::encode_utf8(p.record_text(true))) matches Ok(su) && mirrors(su, p),
{
    let s = vstd::utf8::encode_utf8(p.record_text(true));
    lemma_image(p);
    lemma_image_fields(p, s);
    let m = fen::mirrored(p.board@);
    let x = fen::read_castling(fen::or_dash(text::word(s, 2)), m)->0;
    let su = Setup {
        b: m,
        stm: p.side_to_move.opp(),
        castling: x,
        ep: mirrored_target(p.top().ep_square),
        rule50: p.top().rule50 as int,
        game_ply: other_ply(p.game_ply as int, p.side_to_move),
    };
    assert(fen::move_number(p.game_ply as int, p.side_to_move) >= 1);
    assert(fen::read_fen(s) == Ok::<Setup, fen::FenError>(su));
    assert(mirrors(su, p));
}

/// The rights and rooks of a mirror image that was set up.
proof fn lemma_image_right(p: Position, q: Position, su: Setup, c: Color, ks: bool)
    requires
        flippable(p),
        mirrors(su, p),
        fen::is_set_up(&q, su, p.chess960),
    ensures
        held(q.top().castling_rights, c, ks) == held(p.top().castling_rights, c.opp(), ks),
        held(q.top().castling_rights, c, ks) ==> {
            let r = p.castling.rook_square@[CastlingRights::wing(c.opp(), ks).nibble()].byte();
            &&& 0 <= r < 64
            &&& p.castling.rook_square@[CastlingRights::wing(c.opp(), ks).nibble()]
                == SquareOrNone::At(Square::at(r))
            &&& q.castling.rook_square@[CastlingRights::wing(c, ks).nibble()].byte()
                == Square::mirrored(r)
        },
{
    broadcast use {Square::lemma_idx, Square::lemma_at, Square::lemma_inj};

    assert(c.opp().opp() == c);
    assert(held(p.top().castling_rights, c.opp(), ks) || !held(
        p.top().castling_rights,
        c.opp(),
        ks,
    ));
    if held(p.top().castling_rights, c.opp(), ks) {
        assert(p.castling.right_wf(p.board@, c.opp(), ks));
        let r = p.castling.rook_square@[CastlingRights::wing(c.opp(), ks).nibble()].byte();
        mirror::law_mirroring_undoes_itself(r);
    }
}

/// A mirror image that was set up can be mirrored in its turn.
proof fn lemma_image_flippable(p: Position, q: Position, su: Setup)
    requires
        flippable(p),
        mirrors(su, p),
        fen::is_set_up(&q, su, p.chess960),
    ensures
        flippable(q),
{
    lemma_image(p);
    assert forall|c: Color, ks: bool| #![trigger CastlingRights::wing(c, ks)]
        q.top().castling_rights.has(CastlingRights::wing(c, ks)) implies ({
        let r = q.castling.rook_square@[CastlingRights::wing(c, ks).nibble()].byte();
        &&& r / 8 == placement::king(q.board@, c) / 8
        &&& !q.chess960 ==> fen::outer_rook(q.board@, c, ks, r)
    }) by {
        lemma_image_rook(p, q, su, c, ks);
    }
}

proof fn lemma_image_rook(p: Position, q: Position, su: Setup, c: Color, ks: bool)
    requires
        flippable(p),
        mirrors(su, p),
        fen::is_set_up(&q, su, p.chess960),
        held(q.top().castling_rights, c, ks),
    ensures
        ({
            let r = q.castling.rook_square@[CastlingRights::wing(c, ks).nibble()].byte();
            &&& r / 8 == placement::king(q.board@, c) / 8
            &&& !q.chess960 ==> fen::outer_rook(q.board@, c, ks, r)
        }),
{
    lemma_image_right(p, q, su, c, ks);
    let r = p.castling.rook_square@[CastlingRights::wing(c.opp(), ks).nibble()].byte();
    assert(c.opp().opp() == c);
    assert(p.top().castling_rights.has(CastlingRights::wing(c.opp(), ks)));
    mirror::lemma_kings_mirrored(p.board@, c.opp());
    mirror::law_mirroring_undoes_itself(r);
    mirror::law_mirroring_undoes_itself(placement::king(p.board@, c.opp()));
    if !p.chess960 {
        lemma_outer_mirrored(p.board@, c.opp(), ks, r);
    }
}

/// What the setup holds is what the position held.
pub open spec fn restores(back: Setup, p: Position) -> bool {
    &&& back.b == p.board@
    &&& back.stm == p.side_to_move
    &&& back.castling.rights == p.top().castling_rights
    &&& forall|c: Color, ks: bool| #[trigger]
        held(p.top().castling_rights, c, ks) ==> back.castling.rook_square[CastlingRights::wing(
            c,
            ks,
        ).nibble()] == p.castling.rook_square@[CastlingRights::wing(c, ks).nibble()]
    &&& back.ep == p.top().ep_square
    &&& back.rule50 == p.top().rule50
    &&& back.game_ply == p.game_ply
}

proof fn lemma_ply_back(game_ply: int, stm: Color)
    requires
        0 <= game_ply,
        in_turn(game_ply, stm),
    ensures
        other_ply(other_ply(game_ply, stm), stm.opp()) == game_ply,
{
}

proof fn lemma_target_back(p: Position)
    requires
        p.wf(),
    ensures
        mirrored_target(mirrored_target(p.top().ep_square)) == p.top().ep_square,
{
    broadcast use {Square::lemma_idx, Square::lemma_at, Square::lemma_inj};

    if let SquareOrNone::At(e) = p.top().ep_square {
        assert(position::ep_ok(p.board@, p.side_to_move, e.idx()));
        mirror::law_mirroring_undoes_itself(e.idx());
    }
}

proof fn lemma_rights_back(p: Position, q: Position, su: Setup, back: Setup)
    requires
        flippable(p),
        mirrors(su, p),
        fen::is_set_up(&q, su, p.chess960),
        mirrors(back, q),
    ensures
        back.castling.rights == p.top().castling_rights,
        forall|c: Color, ks: bool| #[trigger]
            held(p.top().castling_rights, c, ks)
                ==> back.castling.rook_square[CastlingRights::wing(c, ks).nibble()]
                == p.castling.rook_square@[CastlingRights::wing(c, ks).nibble()],
{
    lemma_back_right(p, q, su, back, Color::White, true);
    lemma_back_right(p, q, su, back, Color::White, false);
    lemma_back_right(p, q, su, back, Color::Black, true);
    lemma_back_right(p, q, su, back, Color::Black, false);
    let have = back.castling.rights;
    let want = p.top().castling_rights;
    assert(have.white_oo == want.white_oo);
    assert(have.white_ooo == want.white_ooo);
    assert(have.black_oo == want.black_oo);
    assert(have.black_ooo == want.black_ooo);
    assert forall|c: Color, ks: bool| #[trigger] held(want, c, ks) implies back.castling.rook_square[
    CastlingRights::wing(c, ks).nibble()] == p.castling.rook_square@[CastlingRights::wing(
        c,
        ks,
    ).nibble()] by {
        lemma_back_right(p, q, su, back, c, ks);
    }
}

proof fn lemma_back(p: Position, q: Position, su: Setup, back: Setup)
    requires
        flippable(p),
        in_turn(p.game_ply as int, p.side_to_move),
        mirrors(su, p),
        fen::is_set_up(&q, su, p.chess960),
        mirrors(back, q),
    ensures
        restores(back, p),
{
    lemma_rights_back(p, q, su, back);
    lemma_target_back(p);
    lemma_ply_back(p.game_ply as int, p.side_to_move);
    assert(back.b == p.board@) by {
        mirror::law_mirrored_placements(p.board@);
    }
    assert(p.side_to_move.opp().opp() == p.side_to_move);
}

/// Mirroring a position twice gives back what the record holds of it: the placement, the side
/// to move, the rights with their rooks, the en-passant target and both counters.
pub proof fn law_flipping_twice_is_the_identity(p: Position, q: Position, su: Setup)
    requires
        flippable(p),
        in_turn(p.game_ply as int, p.side_to_move),
        fen::read_fen(vstd::utf8::encode_utf8(p.record_text(true))) == Ok::<Setup, fen::FenError>(
            su,
        ),
        fen::is_set_up(&q, su, p.chess960),
    ensures
        fen::read_fen(vstd::utf8::encode_utf8(q.record_text(true))) matches Ok(back) && restores(
            back,
            p,
        ),
{
    law_flipping_mirrors_the_position(p);
    lemma_image_flippable(p, q, su);
    law_flipping_mirrors_the_position(q);
    let back = fen::read_fen(vstd::utf8::encode_utf8(q.record_text(true)))->Ok_0;
    lemma_back(p, q, su, back);
}

proof fn lemma_back_right(p: Position, q: Position, su: Setup, back: Setup, c: Color, ks: bool)
    requires
        flippable(p),
        mirrors(su, p),
        fen::is_set_up(&q, su, p.chess960),
        mirrors(back, q),
    ensures
        held(p.top().castling_rights, c, ks) == back.castling.rights.has(
            CastlingRights::wing(c, ks),
        ),
        held(p.top().castling_rights, c, ks)
            ==> back.castling.rook_square[CastlingRights::wing(c, ks).nibble()]
            == p.castling.rook_square@[CastlingRights::wing(c, ks).nibble()],
{
    assert(c.opp().opp() == c);
    lemma_image_right(p, q, su, c.opp(), ks);
    assert(held(q.top().castling_rights, c.opp(), ks) || !held(
        q.top().castling_rights,
        c.opp(),
        ks,
    ));
    if held(p.top().castling_rights, c, ks) {
        let r = p.castling.rook_square@[CastlingRights::wing(c, ks).nibble()].byte();
        mirror::law_mirroring_undoes_itself(r);
    }
}

} // verus!
