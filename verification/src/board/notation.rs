//! A legal move's text names that move and no other.

use vstd::prelude::*;
use crate::board::bitboard;
use crate::board::legal_moves;
use crate::board::movegen;
use crate::board::movegen::{GenType, Node};
use crate::board::perft;
use crate::board::placement;
use crate::board::position;
use crate::board::types;
use crate::board::types::{CastlingRights, Move, MoveType, Piece, PieceType, Square};

verus! {

/// A move that does not promote leaves the promotion field at its first value.
pub open spec fn unpromoted(m: Move) -> bool {
    m.kind() != MoveType::Promotion ==> m.promo() == PieceType::Knight
}

proof fn lemma_unpromoted(n: Node, gt: GenType)
    requires
        0 <= placement::king(n.b, n.stm) < 64,
        n.castling.wf(n.b, n.rights),
    ensures
        legal_moves::each(n.pseudo(gt), |m: Move| unpromoted(m)),
{
    broadcast use Square::lemma_idx;

    let p = |m: Move| unpromoted(m);
    assert forall|s: int, t: int| 0 <= s < 64 && 0 <= t < 64 implies p(
        #[trigger] movegen::plain(s, t),
    ) by {
        legal_moves::lemma_pack(MoveType::Normal, s, t, PieceType::Knight);
    }
    assert forall|s: int, t: int| 0 <= s < 64 && 0 <= t < 64 implies p(
        #[trigger] Move::pack(MoveType::EnPassant, s, t, PieceType::Knight),
    ) by {
        legal_moves::lemma_pack(MoveType::EnPassant, s, t, PieceType::Knight);
    }
    assert forall|s: int, t: int| 0 <= s < 64 && 0 <= t < 64 implies
        #[trigger] legal_moves::each_promotion(s, t, p) by {
        legal_moves::lemma_pack(MoveType::Promotion, s, t, PieceType::Queen);
        legal_moves::lemma_pack(MoveType::Promotion, s, t, PieceType::Rook);
        legal_moves::lemma_pack(MoveType::Promotion, s, t, PieceType::Bishop);
        legal_moves::lemma_pack(MoveType::Promotion, s, t, PieceType::Knight);
    }
    assert forall|ks: bool, r: Square| p(#[trigger] legal_moves::castle_with(n, ks, r)) by {
        legal_moves::lemma_pack(
            MoveType::Castling,
            placement::king(n.b, n.stm),
            r.idx(),
            PieceType::Knight,
        );
    }
    assert(legal_moves::each_kind(n, gt, p));
    legal_moves::lemma_each_generated(n, gt, p);
}

/// Names of squares are different.
proof fn lemma_names_differ(a: int, b: int)
    requires
        0 <= a < 64,
        0 <= b < 64,
        Square::name(a) == Square::name(b),
    ensures
        a == b,
{
    assert(Square::name(a)[0] == Square::name(b)[0]);
    assert(Square::name(a)[1] == Square::name(b)[1]);
    assert((97 + a % 8) as char as int == 97 + a % 8);
    assert((97 + b % 8) as char as int == 97 + b % 8);
    assert((49 + a / 8) as char as int == 49 + a / 8);
    assert((49 + b / 8) as char as int == 49 + b / 8);
}

/// Two squares' names one after the other name both.
proof fn lemma_pairs_differ(a: int, b: int, c: int, d: int, s: Seq<char>, t: Seq<char>)
    requires
        0 <= a < 64,
        0 <= b < 64,
        0 <= c < 64,
        0 <= d < 64,
        s.len() >= 4,
        t == s,
        s.subrange(0, 4) == Square::name(a) + Square::name(b),
        t.subrange(0, 4) == Square::name(c) + Square::name(d),
    ensures
        a == c,
        b == d,
{
    let x = Square::name(a) + Square::name(b);
    let y = Square::name(c) + Square::name(d);
    assert(Square::name(a) =~= x.subrange(0, 2));
    assert(Square::name(b) =~= x.subrange(2, 4));
    assert(Square::name(c) =~= y.subrange(0, 2));
    assert(Square::name(d) =~= y.subrange(2, 4));
    lemma_names_differ(a, c);
    lemma_names_differ(b, d);
}

/// What holds of a legal move's fields.
pub open spec fn sorted_out(n: Node, m: Move) -> bool {
    &&& n.well_moved(m)
    &&& unpromoted(m)
    &&& m.src() != m.dst()
}

proof fn lemma_sorted_out(n: Node, m: Move)
    requires
        n.regular(),
        n.legal_moves().contains(m),
    ensures
        sorted_out(n, m),
{
    perft::lemma_legal(n, m);
    placement::lemma_king(n.b, n.stm);
    legal_moves::law_legal_moves_are_the_passing_ones(n, m);
    lemma_unpromoted(n, n.full_kind());
    let s = n.pseudo(n.full_kind());
    let i = choose|i: int| 0 <= i < s.len() && s[i] == m;
    assert((|m: Move| unpromoted(m))(s[i]));
}

/// A move that is no null move is written by its squares, with the promotion letter.
proof fn lemma_text(m: Move)
    requires
        m.src() != m.dst(),
    ensures
        m.text().len() >= 4,
        m.text().subrange(0, 4) == Square::name(m.src()) + Square::name(m.dst()),
        m.text().len() == (if m.kind() == MoveType::Promotion {
            5int
        } else {
            4
        }),
        m.kind() == MoveType::Promotion ==> m.text()[4] == (m.promo().letter() + 32) as char,
{
    assert(Move(0).src() == Move(0).dst());
    assert(Move(65).src() == Move(65).dst());
    let w = Square::name(m.src()) + Square::name(m.dst());
    assert(m.text().subrange(0, 4) =~= w);
}

/// Two moves of one node with the same text are one move.
proof fn lemma_same_text(n: Node, a: Move, c: Move)
    requires
        n.regular(),
        sorted_out(n, a),
        sorted_out(n, c),
        a.text() == c.text(),
    ensures
        a == c,
{
    broadcast use Square::lemma_idx;

    lemma_text(a);
    lemma_text(c);
    lemma_pairs_differ(a.src(), a.dst(), c.src(), c.dst(), a.text(), c.text());
    if a.kind() == MoveType::Promotion {
        assert(c.kind() == MoveType::Promotion);
        lemma_promotion_letters(a.promo(), c.promo());
    } else {
        lemma_one_kind(n, a, c);
    }
    types::law_move_is_its_fields(a);
    types::law_move_is_its_fields(c);
}

proof fn lemma_promotion_letters(a: PieceType, c: PieceType)
    requires
        (a.letter() + 32) as char == (c.letter() + 32) as char,
    ensures
        a == c,
{
    assert((a.letter() + 32) as char as int == a.letter() + 32);
    assert((c.letter() + 32) as char as int == c.letter() + 32);
}

/// The squares of a move decide its kind, promotions apart.
proof fn lemma_one_kind(n: Node, a: Move, c: Move)
    requires
        n.regular(),
        sorted_out(n, a),
        sorted_out(n, c),
        a.src() == c.src(),
        a.dst() == c.dst(),
        a.kind() != MoveType::Promotion,
        c.kind() != MoveType::Promotion,
    ensures
        a.kind() == c.kind(),
{
    broadcast use Square::lemma_idx;

    placement::lemma_king(n.b, n.stm);
    if a.kind() == MoveType::Castling {
        lemma_castling_target(n, a);
    }
    if c.kind() == MoveType::Castling {
        lemma_castling_target(n, c);
    }
}

/// A castling move ends on the rook of its own side.
proof fn lemma_castling_target(n: Node, m: Move) -> (ks: bool)
    requires
        n.regular(),
        n.well_moved(m),
        m.kind() == MoveType::Castling,
    ensures
        n.b[m.dst()] == Piece::of(n.stm, PieceType::Rook),
        n.b[m.src()] == Piece::of(n.stm, PieceType::King),
        m.src() == placement::king(n.b, n.stm),
        n.rights.has(CastlingRights::wing(n.stm, ks)),
        (m.dst() > m.src()) == ks,
        n.castling.rook_square@[CastlingRights::wing(n.stm, ks).nibble()].byte() == m.dst(),
        !n.chess960 ==> m.dst() % 8 == (if ks {
            7int
        } else {
            0int
        }),
{
    let ks = choose|ks: bool| #[trigger] n.castles_with(ks, m.dst());
    placement::lemma_king(n.b, n.stm);
    assert(n.castling.right_wf(n.b, n.stm, ks));
    ks
}

/// The castling king of the side to move stands on the e-file.
pub open spec fn king_on_its_file(n: Node) -> bool {
    forall|ks: bool|
        n.rights.has(#[trigger] CastlingRights::wing(n.stm, ks)) ==> placement::king(n.b, n.stm) % 8
            == 4
}

/// No other move is written like a castling king's two squares.
proof fn lemma_king_text(n: Node, m: Move, c: Move)
    requires
        n.regular(),
        !n.chess960,
        king_on_its_file(n),
        sorted_out(n, m),
        sorted_out(n, c),
        m.kind() == MoveType::Castling,
    ensures
        c.text() != legal_moves::king_text(m),
        c.kind() == MoveType::Castling && legal_moves::king_text(c) == legal_moves::king_text(m)
            ==> c == m,
{
    broadcast use Square::lemma_idx;

    let ks = lemma_castling_target(n, m);
    placement::lemma_king(n.b, n.stm);
    let k = m.src();
    let kt = position::castle_king_to(k, ks);
    let w = legal_moves::king_text(m);
    assert(w.subrange(0, 4) =~= w);
    if c.text() == w {
        lemma_text(c);
        lemma_pairs_differ(c.src(), c.dst(), k, kt, c.text(), w);
        if c.kind() == MoveType::Castling {
            let other = lemma_castling_target(n, c);
        } else {
            assert(bitboard::king_hits(k, kt));
        }
    }
    if c.kind() == MoveType::Castling && legal_moves::king_text(c) == w {
        let other = lemma_castling_target(n, c);
        let ct = position::castle_king_to(c.src(), other);
        let v = legal_moves::king_text(c);
        assert(v.subrange(0, 4) =~= v);
        lemma_pairs_differ(c.src(), ct, k, kt, v, w);
        assert(other == ks);
        types::law_move_is_its_fields(c);
        types::law_move_is_its_fields(m);
    }
}

/// Only `m` is named by the text of `m`.
proof fn lemma_named_once(n: Node, m: Move, c: Move)
    requires
        n.regular(),
        !n.chess960 ==> king_on_its_file(n),
        sorted_out(n, m),
        sorted_out(n, c),
    ensures
        legal_moves::names(n.chess960, c, legal_moves::uci_text(n.chess960, m)) == (c == m),
{
    assert(Move(0).src() == Move(0).dst());
    assert(Move(65).src() == Move(65).dst());
    if m.kind() == MoveType::Castling && !n.chess960 {
        lemma_king_text(n, m, c);
        if c == m {
            assert(legal_moves::names(n.chess960, c, legal_moves::king_text(m)));
        }
    } else {
        if c.text() == m.text() {
            lemma_same_text(n, c, m);
        }
        if c.kind() == MoveType::Castling && !n.chess960 {
            lemma_king_text(n, c, m);
        }
    }
}

proof fn lemma_found(n: Node, m: Move, i: int, k: int)
    requires
        n.regular(),
        !n.chess960 ==> king_on_its_file(n),
        0 <= i <= k < n.legal_moves().len(),
        n.legal_moves()[k] == m,
    ensures
        legal_moves::find_named(
            n.legal_moves(),
            n.chess960,
            legal_moves::uci_text(n.chess960, m),
            i,
        ) == Some(m),
    decreases k - i,
{
    let s = n.legal_moves();
    assert(s.contains(s[i]));
    assert(s.contains(m));
    lemma_sorted_out(n, m);
    lemma_sorted_out(n, s[i]);
    lemma_named_once(n, m, s[i]);
    if s[i] != m {
        lemma_found(n, m, i + 1, k);
    }
}

/// The text of a legal move, in the dialect of the position, is read as that move.
///
/// In standard chess a castling move is written by the king's two squares, which a step of a
/// king that is not on the e-file could have too.
pub proof fn law_move_notation_reads_back(n: Node, m: Move)
    requires
        n.regular(),
        !n.chess960 ==> king_on_its_file(n),
        n.legal_moves().contains(m),
    ensures
        legal_moves::find_named(
            n.legal_moves(),
            n.chess960,
            legal_moves::uci_text(n.chess960, m),
            0,
        ) == Some(m),
{
    let s = n.legal_moves();
    let k = choose|k: int| 0 <= k < s.len() && s[k] == m;
    lemma_found(n, m, 0, k);
}

} // verus!
