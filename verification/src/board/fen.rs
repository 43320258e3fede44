//! FEN records: setting a position up from one, and writing one.
//!
//! A record has six fields: the placement, the side to move, the castling rights, the
//! en-passant target, the halfmove clock and the move number. `read_fen` says what a record
//! means and which defect it is rejected for.

use vstd::prelude::*;
use std::sync::Arc;
use crate::board::attacks::between_bb;
use crate::board::bitboard::{pawn_attacks_from, relative_rank_bb, Bitboard};
use crate::board::bitboard;
use crate::board::bits;
use crate::board::placement::Board;
use crate::board::placement;
use crate::board::position::{Castling, Position};
use crate::board::position;
use crate::board::state::{survey, StateInfo};
use crate::board::state;
use crate::board::tally;
use crate::board::text::{next_word, parse_i32};
use crate::board::text;
use crate::board::types::{
    piece_value, CastlingRights, Color, Direction, File, Key, Piece, PieceType, Rank, Square,
    SquareOrNone, Value,
};
use crate::board::zobrist::Tables;
use crate::board::zobrist;

verus! {

/// Why a record was rejected.
#[derive(Clone, Copy, Debug, PartialEq, Eq, Structural)]
pub enum FenError {
    /// The board field is missing, malformed, or does not describe 64 squares; or a count in
    /// the record is too large to play with.
    Board,
    /// The side-to-move field is neither `w` nor `b`.
    SideToMove,
    /// A castling letter names no rook.
    Castling,
    /// The en-passant field is not a square or `-`.
    EnPassant,
    /// A colour has no king, or more than one.
    Kings,
    /// The side not to move is already in check.
    OppositeCheck,
}

impl FenError {
    /// The reason in words.
    pub fn message(self) -> (r: &'static str)
        ensures
            r@ == (match self {
                FenError::Board => "malformed board field"@,
                FenError::SideToMove => "side to move must be 'w' or 'b'"@,
                FenError::Castling => "castling field names no rook"@,
                FenError::EnPassant => "malformed en passant field"@,
                FenError::Kings => "each side must have exactly one king"@,
                FenError::OppositeCheck => "the side not to move is in check"@,
            }),
    {
        match self {
            FenError::Board => "malformed board field",
            FenError::SideToMove => "side to move must be 'w' or 'b'",
            FenError::Castling => "castling field names no rook",
            FenError::EnPassant => "malformed en passant field",
            FenError::Kings => "each side must have exactly one king",
            FenError::OppositeCheck => "the side not to move is in check",
        }
    }
}

// ---------------------------------------------------------------------------
// The placement field
// ---------------------------------------------------------------------------

/// The empty placement.
pub open spec fn no_pieces() -> Seq<Piece> {
    Seq::new(64, |i: int| Piece::NONE)
}

/// Read the placement field from byte `i` on, with `file` and `rank` the next square and `b`
/// what has been read: the end file, the end rank and the placement.
pub open spec fn scan_board(t: Seq<u8>, i: int, file: int, rank: int, b: Seq<Piece>) -> Option<
    (int, int, Seq<Piece>),
>
    decreases t.len() - i,
{
    if i >= t.len() {
        Some((file, rank, b))
    } else {
        let c = t[i];
        if 49 <= c <= 56 {
            // A digit skips that many files.
            if file + (c - 48) > 8 {
                None
            } else {
                scan_board(t, i + 1, file + (c - 48), rank, b)
            }
        } else if c == 47 {
            // A slash ends a full rank.
            if file != 8 || rank == 0 {
                None
            } else {
                scan_board(t, i + 1, 0, rank - 1, b)
            }
        } else {
            match Piece::of_letter(c) {
                Some(pc) => if file >= 8 {
                    None
                } else {
                    scan_board(t, i + 1, file + 1, rank, b.update(8 * rank + file, pc))
                },
                None => None,
            }
        }
    }
}

/// The placement that the field `t` describes: eight full ranks, the eighth first.
pub open spec fn read_board(t: Seq<u8>) -> Option<Seq<Piece>> {
    match scan_board(t, 0, 0, 7, no_pieces()) {
        Some((file, rank, b)) => if file == 8 && rank == 0 {
            Some(b)
        } else {
            None
        },
        None => None,
    }
}

/// Every square from `file` on in `rank`, and every lower rank, is empty.
spec fn ahead_empty(b: Seq<Piece>, file: int, rank: int) -> bool {
    forall|j: int|
        0 <= j < 64 && (j / 8 < rank || (j / 8 == rank && j % 8 >= file)) ==> #[trigger] b[j]
            == Piece::NONE
}

/// Read the placement field.
fn parse_board(t: &[u8]) -> (r: Option<Board>)
    ensures
        (match r {
            Some(board) => board.wf() && read_board(t@) == Some(board@),
            None => read_board(t@).is_none(),
        }),
{
    let mut board = Board::empty();
    let mut file: usize = 0;
    let mut rank: usize = 7;
    let mut i: usize = 0;
    assert(board@ == no_pieces());
    while i < t.len()
        invariant
            i <= t@.len(),
            file <= 8,
            rank <= 7,
            board.wf(),
            ahead_empty(board@, file as int, rank as int),
            scan_board(t@, 0, 0, 7, no_pieces()) == scan_board(
                t@,
                i as int,
                file as int,
                rank as int,
                board@,
            ),
        decreases t@.len() - i,
    {
        let c: u8 = t[i];
        if c >= 49 && c <= 56 {
            let n: usize = (c - 48) as usize;
            if file + n > 8 {
                return None;
            }
            file = file + n;
        } else if c == 47 {
            if file != 8 || rank == 0 {
                return None;
            }
            file = 0;
            rank = rank - 1;
        } else {
            match Piece::from_char(c) {
                Some(pc) => {
                    if file >= 8 {
                        return None;
                    }
                    let sq = Square::make(File::new(file), Rank::new(rank));
                    board.put_piece(pc, sq);
                    file = file + 1;
                },
                None => {
                    return None;
                },
            }
        }
        i += 1;
    }
    if file == 8 && rank == 0 {
        Some(board)
    } else {
        None
    }
}

// ---------------------------------------------------------------------------
// The castling field
// ---------------------------------------------------------------------------

/// What the castling letters read so far have set.
pub struct Rights {
    pub rights: CastlingRights,
    pub rook_square: Seq<SquareOrNone>,
    pub mask: Seq<CastlingRights>,
}

/// No rights.
pub open spec fn no_rights() -> Rights {
    Rights {
        rights: CastlingRights::of(false, false, false, false),
        rook_square: Seq::new(16, |i: int| SquareOrNone::NONE),
        mask: Seq::new(64, |i: int| CastlingRights::of(false, false, false, false)),
    }
}

/// A rook of `c` stands on square `i` of its back rank.
pub open spec fn home_rook(b: Seq<Piece>, c: Color, i: int) -> bool {
    &&& 0 <= i < 64
    &&& Square::rel_rank(i, c) == 0
    &&& b[i] == Piece::of(c, PieceType::Rook)
}

/// Square `r` is the outermost home rook of `c` on the given wing: the last one for the king
/// side, the first for the queen side.
pub open spec fn outer_rook(b: Seq<Piece>, c: Color, king_side: bool, r: int) -> bool {
    &&& home_rook(b, c, r)
    &&& forall|j: int| #[trigger]
        home_rook(b, c, j) ==> (if king_side {
            j <= r
        } else {
            r <= j
        })
}

/// The colour that a castling letter belongs to.
pub open spec fn letter_color(c: u8) -> Color {
    if 65 <= c <= 90 {
        Color::White
    } else {
        Color::Black
    }
}

/// The letter in upper case.
pub open spec fn upper(c: u8) -> u8 {
    if 97 <= c <= 122 {
        (c - 32) as u8
    } else {
        c
    }
}

/// The letter `c` names the rook on square `r`: by its wing, or by its file.
pub open spec fn names_rook(b: Seq<Piece>, c: u8, r: int) -> bool {
    let us = letter_color(c);
    let k = placement::king(b, us);
    let u = upper(c);
    if u == 75 {
        outer_rook(b, us, true, r) && r > k
    } else if u == 81 {
        outer_rook(b, us, false, r) && r < k
    } else if 65 <= u <= 72 {
        r == 8 * (k / 8) + (u - 65) && b[r] == Piece::of(us, PieceType::Rook)
    } else {
        false
    }
}

/// The rook that the letter `c` names.
pub open spec fn named_rook(b: Seq<Piece>, c: u8) -> int {
    choose|r: int| #[trigger] names_rook(b, c, r)
}

/// The rights with the one between the king of `us` and the rook on `r` recorded.
pub open spec fn record(x: Rights, b: Seq<Piece>, us: Color, r: int) -> Rights {
    let k = placement::king(b, us);
    let cr = CastlingRights::wing(us, r > k);
    let mask1 = x.mask.update(k, x.mask[k].or(cr));
    Rights {
        rights: x.rights.or(cr),
        rook_square: x.rook_square.update(cr.nibble(), SquareOrNone::At(Square::at(r))),
        mask: mask1.update(r, mask1[r].or(cr)),
    }
}

/// The rights that the letters from `i` on set, `None` when one of them names no rook.
pub open spec fn scan_castling(t: Seq<u8>, i: int, b: Seq<Piece>, x: Rights) -> Option<Rights>
    decreases t.len() - i,
{
    if i >= t.len() {
        Some(x)
    } else if exists|r: int| #[trigger] names_rook(b, t[i], r) {
        scan_castling(t, i + 1, b, record(x, b, letter_color(t[i]), named_rook(b, t[i])))
    } else {
        None
    }
}

/// The rights that the castling field sets; a dash sets none.
pub open spec fn read_castling(t: Seq<u8>, b: Seq<Piece>) -> Option<Rights> {
    if t == seq![45u8] {
        Some(no_rights())
    } else {
        scan_castling(t, 0, b, no_rights())
    }
}

/// A letter names at most one rook.
pub proof fn lemma_names_one(b: Seq<Piece>, c: u8, r: int)
    requires
        names_rook(b, c, r),
    ensures
        named_rook(b, c) == r,
{
    let q = named_rook(b, c);
    assert(names_rook(b, c, q));
    let us = letter_color(c);
    if upper(c) == 75 || upper(c) == 81 {
        assert(home_rook(b, us, q));
        assert(home_rook(b, us, r));
    }
}

/// The rook that the castling letter `c` names.
fn find_rook(board: &Board, c: u8) -> (r: Option<Square>)
    requires
        board.wf(),
        placement::kings(board@),
    ensures
        (match r {
            Some(sq) => names_rook(board@, c, sq.idx()),
            None => forall|q: int| !#[trigger] names_rook(board@, c, q),
        }),
{
    broadcast use Square::lemma_idx;

    let us = if c >= 65 && c <= 90 {
        Color::White
    } else {
        Color::Black
    };
    let u: u8 = if c >= 97 && c <= 122 {
        c - 32
    } else {
        c
    };
    let ksq = board.king_square(us);
    if u >= 65 && u <= 72 {
        let sq = Square::make(File::new((u - 65) as usize), ksq.rank());
        if board.piece_on(sq) == Piece::new(us, PieceType::Rook) {
            return Some(sq);
        }
        return None;
    }
    if u != 75 && u != 81 {
        return None;
    }
    let rooks = board.pieces_of(us, PieceType::Rook) & relative_rank_bb(us, 0);
    proof {
        broadcast use bits::group_bits;

        assert forall|i: int| #[trigger] rooks.has(i) == home_rook(board@, us, i) by {}
        bits::lemma_nonzero(rooks.0);
    }
    if rooks.is_empty() {
        proof {
            assert forall|q: int| !#[trigger] names_rook(board@, c, q) by {
                if names_rook(board@, c, q) {
                    assert(home_rook(board@, us, q));
                    assert(rooks.has(q));
                }
            }
        }
        return None;
    }
    let r = if u == 75 {
        rooks.msb()
    } else {
        rooks.lsb()
    };
    proof {
        assert(rooks.has(r.idx()));
        assert forall|j: int| #[trigger] home_rook(board@, us, j) implies (if u == 75 {
            j <= r.idx()
        } else {
            r.idx() <= j
        }) by {
            assert(rooks.has(j));
        }
        assert(outer_rook(board@, us, u == 75, r.idx()));
        assert forall|q: int| #[trigger] names_rook(board@, c, q) implies q == r.idx() by {
            assert(home_rook(board@, us, q));
        }
    }
    let outside = if u == 75 {
        r.index() > ksq.index()
    } else {
        r.index() < ksq.index()
    };
    if outside {
        Some(r)
    } else {
        None
    }
}

/// The data agrees with what the letters have set, and every path is in place.
pub open spec fn castling_agrees(c: &Castling, rights: CastlingRights, b: Seq<Piece>, x: Rights) -> bool {
    &&& rights == x.rights
    &&& c.rook_square@ == x.rook_square
    &&& c.mask@ == x.mask
    &&& c.wf(b, rights)
    &&& forall|n: int|
        0 <= n < 16 && c.rook_square@[n] == SquareOrNone::NONE ==> #[trigger] c.path@[n] == Bitboard(0)
}

/// Record one castling right and the path it needs clear.
pub(crate) fn set_castling_right(
    board: &Board,
    castling: &mut Castling,
    rights: CastlingRights,
    us: Color,
    rook: Square,
    Ghost(x): Ghost<Rights>,
) -> (r: CastlingRights)
    requires
        board.wf(),
        placement::kings(board@),
        board@[rook.idx()] == Piece::of(us, PieceType::Rook),
        castling_agrees(old(castling), rights, board@, x),
    ensures
        castling_agrees(final(castling), r, board@, record(x, board@, us, rook.idx())),
{
    broadcast use {Square::lemma_idx, Square::lemma_inj, Square::lemma_at, bits::group_bits};

    let ksq = board.king_square(us);
    let king_side = rook.index() > ksq.index();
    let cr = if king_side {
        CastlingRights::king_side(us)
    } else {
        CastlingRights::queen_side(us)
    };
    let ghost before = *castling;
    let k: usize = ksq.index();
    let q: usize = rook.index();
    castling.mask[k] = castling.mask[k].union(cr);
    castling.mask[q] = castling.mask[q].union(cr);
    castling.rook_square[cr.index()] = SquareOrNone::At(rook);
    // The destinations are fixed by the rules in both dialects.
    let rank = ksq.rank();
    let king_to = Square::make(
        if king_side {
            File::G
        } else {
            File::C
        },
        rank,
    );
    let rook_to = Square::make(
        if king_side {
            File::F
        } else {
            File::D
        },
        rank,
    );
    // The path is everything the king and rook travel through, minus the two movers. In
    // Chess960 either can already stand on a square the other needs.
    let mut path = between_bb(rook, rook_to) | between_bb(ksq, king_to);
    path.set(king_to);
    path.set(rook_to);
    path.clear(ksq);
    path.clear(rook);
    castling.path[cr.index()] = path;
    let all = rights.union(cr);
    proof {
        let b = board@;
        let n = cr.nibble();
        let y = record(x, b, us, rook.idx());
        assert(Square::at(rook.idx()) == rook);
        assert(castling.rook_square@ =~= y.rook_square);
        assert(castling.mask@ =~= y.mask);
        assert forall|c: Color, ks: bool| all.has(#[trigger] CastlingRights::wing(c, ks)) implies castling.right_wf(
            b,
            c,
            ks,
        ) by {
            let w = CastlingRights::wing(c, ks);
            if w == cr {
                assert(c == us && ks == king_side);
                assert forall|t: int| #[trigger] castling.path@[n].has(t) == position::castle_path(
                    ksq.idx(),
                    rook.idx(),
                    king_side,
                    t,
                ) by {}
            } else {
                assert(rights.has(w));
                assert(before.right_wf(b, c, ks));
                assert(w.nibble() != n);
                let kk = placement::king(b, c);
                let r = before.rook_square@[w.nibble()]->At_0.idx();
                placement::lemma_king(b, c);
                assert(castling.mask@[kk].has(w));
                assert(castling.mask@[r].has(w));
                assert(castling.path@[w.nibble()] == before.path@[w.nibble()]);
            }
        }
    }
    all
}

/// Read the castling field.
fn parse_castling(board: &Board, t: &[u8]) -> (r: Option<(Castling, CastlingRights)>)
    requires
        board.wf(),
        placement::kings(board@),
    ensures
        (match r {
            Some((c, rights)) => read_castling(t@, board@) matches Some(x) && castling_agrees(
                &c,
                rights,
                board@,
                x,
            ),
            None => read_castling(t@, board@).is_none(),
        }),
{
    broadcast use Square::lemma_idx;

    let mut castling = Castling::empty();
    let mut rights = CastlingRights::none();
    let ghost mut x = no_rights();
    assert(castling_agrees(&castling, rights, board@, x));
    if t.len() == 1 && t[0] == 45 {
        assert(t@ =~= seq![45u8]);
        return Some((castling, rights));
    }
    assert(t@ != seq![45u8]);
    let mut i: usize = 0;
    while i < t.len()
        invariant
            i <= t@.len(),
            board.wf(),
            placement::kings(board@),
            t@ != seq![45u8],
            castling_agrees(&castling, rights, board@, x),
            read_castling(t@, board@) == scan_castling(t@, i as int, board@, x),
        decreases t@.len() - i,
    {
        let c: u8 = t[i];
        match find_rook(board, c) {
            Some(rook) => {
                let us = if c >= 65 && c <= 90 {
                    Color::White
                } else {
                    Color::Black
                };
                proof {
                    lemma_names_one(board@, c, rook.idx());
                }
                rights = set_castling_right(board, &mut castling, rights, us, rook, Ghost(x));
                proof {
                    x = record(x, board@, us, rook.idx());
                }
            },
            None => {
                return None;
            },
        }
        i += 1;
    }
    Some((castling, rights))
}

// ---------------------------------------------------------------------------
// The en-passant field
// ---------------------------------------------------------------------------

/// The field is a dash or a square, and what it names: `None` for the outer option when it is
/// neither.
pub open spec fn read_ep(t: Seq<u8>) -> Option<SquareOrNone> {
    if t == seq![45u8] {
        Some(SquareOrNone::NONE)
    } else if t.len() == 2 && 97 <= t[0] <= 104 && 49 <= t[1] <= 56 {
        Some(SquareOrNone::At(Square::at(8 * (t[1] - 49) + (t[0] - 97))))
    } else {
        None
    }
}

/// The target is kept only when the capture exists: the key depends on it.
pub open spec fn keep_ep(b: Seq<Piece>, stm: Color, ep: SquareOrNone) -> SquareOrNone {
    match ep {
        SquareOrNone::At(s) => if position::ep_ok(b, stm, s.idx()) {
            ep
        } else {
            SquareOrNone::NONE
        },
        SquareOrNone::NONE => SquareOrNone::NONE,
    }
}

/// Read the en-passant field.
fn parse_ep(board: &Board, stm: Color, t: &[u8]) -> (r: Option<SquareOrNone>)
    requires
        board.wf(),
    ensures
        (match r {
            Some(ep) => read_ep(t@) matches Some(e) && ep == keep_ep(board@, stm, e),
            None => read_ep(t@).is_none(),
        }),
{
    broadcast use {Square::lemma_idx, Square::lemma_inj, Square::lemma_at, bits::group_bits};

    if t.len() == 1 && t[0] == 45 {
        assert(t@ =~= seq![45u8]);
        return Some(SquareOrNone::NONE);
    }
    assert(t@ != seq![45u8]);
    if t.len() != 2 {
        return None;
    }
    let sq = match Square::from_coords(t[0], t[1]) {
        Some(sq) => sq,
        None => {
            return None;
        },
    };
    assert(Square::at(sq.idx()) == sq);
    if sq.relative_rank(stm).index() != 5 || !board.piece_on(sq).is_none() {
        return Some(SquareOrNone::NONE);
    }
    let captured = sq.shift(Direction::pawn_push(stm.flip()));
    if board.piece_on(captured) != Piece::new(stm.flip(), PieceType::Pawn) {
        return Some(SquareOrNone::NONE);
    }
    let takers = pawn_attacks_from(stm.flip(), sq) & board.pieces_of(stm, PieceType::Pawn);
    proof {
        bits::lemma_nonzero(takers.0);
        if exists|p: int| #[trigger] position::ep_taker(board@, stm, sq.idx(), p) {
            let p = choose|p: int| #[trigger] position::ep_taker(board@, stm, sq.idx(), p);
            bitboard::law_pawn_attacks_mirror(stm, p, sq.idx());
            assert(takers.has(p));
        }
        if exists|i: int| bits::bit(takers.0, i) {
            let i = choose|i: int| bits::bit(takers.0, i);
            assert(takers.has(i));
            bitboard::law_pawn_attacks_mirror(stm, i, sq.idx());
            assert(position::ep_taker(board@, stm, sq.idx(), i));
        }
    }
    if takers.any() {
        Some(SquareOrNone::At(sq))
    } else {
        Some(SquareOrNone::NONE)
    }
}

// ---------------------------------------------------------------------------
// The whole record
// ---------------------------------------------------------------------------

/// What a record sets up.
pub struct Setup {
    pub b: Seq<Piece>,
    pub stm: Color,
    pub castling: Rights,
    pub ep: SquareOrNone,
    pub rule50: int,
    pub game_ply: int,
}

/// The word, or a dash in its place.
pub open spec fn or_dash(t: Option<Seq<u8>>) -> Seq<u8> {
    match t {
        Some(s) => s,
        None => seq![45u8],
    }
}

/// The number a word writes, or the default when it writes none.
pub open spec fn or_number(t: Option<Seq<u8>>, default: int) -> int {
    match t {
        Some(s) => match text::read_i32(s) {
            Some(n) => n,
            None => default,
        },
        None => default,
    }
}

/// The larger of two numbers.
pub open spec fn greater(a: int, b: int) -> int {
    if a >= b {
        a
    } else {
        b
    }
}

/// The side to move that the field names.
pub open spec fn read_side(t: Option<Seq<u8>>) -> Option<Color> {
    if t == Some(seq![119u8]) {
        Some(Color::White)
    } else if t == Some(seq![98u8]) {
        Some(Color::Black)
    } else {
        None
    }
}

/// What the record `s` sets up, or the first defect found in it.
///
/// A missing castling or en-passant field reads as a dash, a missing or unreadable clock as
/// 0 and a missing or unreadable move number as 1. The material key has a key for at most 56
/// of a kind, and the ply count must fit: a record beyond either is a malformed board.
pub open spec fn read_fen(s: Seq<u8>) -> Result<Setup, FenError> {
    let board_field = text::word(s, 0);
    let stm_field = text::word(s, 1);
    let castling_field = or_dash(text::word(s, 2));
    let ep_field = or_dash(text::word(s, 3));
    let rule50 = or_number(text::word(s, 4), 0);
    let fullmove = greater(or_number(text::word(s, 5), 1), 1);
    if board_field.is_none() || read_board(board_field->0).is_none() {
        Err(FenError::Board)
    } else {
        let b = read_board(board_field->0)->0;
        if read_side(stm_field).is_none() {
            Err(FenError::SideToMove)
        } else {
            let stm = read_side(stm_field)->0;
            let black: int = if stm == Color::Black {
                1
            } else {
                0
            };
            let game_ply = (fullmove - 1) * 2 + black;
            if !placement::kings(b) {
                Err(FenError::Kings)
            } else if read_castling(castling_field, b).is_none() {
                Err(FenError::Castling)
            } else if read_ep(ep_field).is_none() {
                Err(FenError::EnPassant)
            } else if game_ply > i32::MAX {
                Err(FenError::Board)
            } else if placement::attacked(
                b,
                placement::occ(b),
                stm,
                placement::king(b, stm.opp()),
            ) {
                Err(FenError::OppositeCheck)
            } else if !state::roomy(b) {
                Err(FenError::Board)
            } else {
                Ok(
                    Setup {
                        b,
                        stm,
                        castling: read_castling(castling_field, b)->0,
                        ep: keep_ep(b, stm, read_ep(ep_field)->0),
                        rule50,
                        game_ply,
                    },
                )
            }
        }
    }
}

/// The position is what the setup describes, with no history.
pub open spec fn is_set_up(p: &Position, su: Setup, chess960: bool) -> bool {
    &&& p.wf()
    &&& p.board@ == su.b
    &&& p.side_to_move == su.stm
    &&& p.game_ply == su.game_ply
    &&& p.chess960 == chess960
    &&& p.castling.rook_square@ == su.castling.rook_square
    &&& p.castling.mask@ == su.castling.mask
    &&& forall|n: int|
        0 <= n < 16 && su.castling.rook_square[n] == SquareOrNone::NONE
            ==> #[trigger] p.castling.path@[n] == Bitboard(0)
    &&& p.states@.len() == 1
    &&& p.top().castling_rights == su.castling.rights
    &&& p.top().ep_square == su.ep
    &&& p.top().rule50 == su.rule50
    &&& p.top().plies_from_null == 0
    &&& p.top().captured_piece == Piece::NONE
    &&& p.top().repetition == 0
    &&& p.top().checked(su.b, su.stm)
}

/// The keys and the material of a placement, square by square.
fn tally_board(board: &Board, keys: &Tables, st: &mut StateInfo)
    requires
        board.wf(),
        keys.wf(),
        state::roomy(board@),
    ensures
        final(st).tallied(board@),
        final(st).same_frame(old(st)),
        final(st).key == tally::xor_all(board@, tally::Sel::Every),
{
    let mut key: Key = 0;
    let mut pawns: Key = 0;
    let mut minors: Key = 0;
    let mut white: Key = 0;
    let mut black: Key = 0;
    let mut white_worth: i32 = 0;
    let mut black_worth: i32 = 0;
    let ghost b = board@;
    let mut i: usize = 0;
    while i < 64
        invariant
            i <= 64,
            board.wf(),
            keys.wf(),
            b == board@,
            key == tally::xor_upto(b, tally::Sel::Every, i as int),
            pawns == tally::xor_upto(b, tally::Sel::Pawns, i as int),
            minors == tally::xor_upto(b, tally::Sel::Minors, i as int),
            white == tally::xor_upto(b, tally::Sel::NonPawns(Color::White), i as int),
            black == tally::xor_upto(b, tally::Sel::NonPawns(Color::Black), i as int),
            white_worth == tally::worth_upto(b, Color::White, i as int),
            black_worth == tally::worth_upto(b, Color::Black, i as int),
        decreases 64 - i,
    {
        let sq = Square::new(i);
        let pc = board.piece_on(sq);
        let pt = pc.piece_type();
        proof {
            tally::lemma_xor(key, 0, 0);
            tally::lemma_xor(pawns, 0, 0);
            tally::lemma_xor(minors, 0, 0);
            tally::lemma_xor(white, 0, 0);
            tally::lemma_xor(black, 0, 0);
            tally::lemma_worth_bounds(b, Color::White, i as int);
            tally::lemma_worth_bounds(b, Color::Black, i as int);
        }
        if !pc.is_none() {
            let k: Key = keys.psq(pc, sq);
            key = key ^ k;
            if pt == PieceType::Pawn {
                pawns = pawns ^ k;
            } else {
                let v: i32 = piece_value(pc).0;
                match pc.color() {
                    Color::White => {
                        white = white ^ k;
                        white_worth = white_worth + v;
                    },
                    Color::Black => {
                        black = black ^ k;
                        black_worth = black_worth + v;
                    },
                }
                if pt == PieceType::Knight || pt == PieceType::Bishop {
                    minors = minors ^ k;
                }
            }
        }
        i += 1;
    }
    st.key = key;
    st.pawn_key = keys.no_pawns ^ pawns;
    st.minor_piece_key = minors;
    st.non_pawn_key = [white, black];
    st.non_pawn_material = [Value(white_worth), Value(black_worth)];
    st.material_key = material(board, keys);
}

/// The material key of a board: it hashes counts, not squares.
fn material(board: &Board, keys: &Tables) -> (r: Key)
    requires
        board.wf(),
        keys.wf(),
        state::roomy(board@),
    ensures
        r == tally::material_of(board@),
{
    let ghost b = board@;
    let mut key: Key = 0;
    let mut code: u8 = 0;
    while code < 16
        invariant
            code <= 16,
            board.wf(),
            keys.wf(),
            state::roomy(board@),
            b == board@,
            key == tally::material_upto(b, code as int),
        decreases 16 - code,
    {
        let pc = Piece::from_raw(code);
        proof {
            tally::lemma_coded(pc);
            tally::lemma_xor(key, 0, 0);
        }
        if pc.piece_type() != PieceType::NoType {
            let n: i32 = board.count(pc.color(), pc.piece_type());
            let ghost start = key;
            assert(Piece::of(pc.side(), pc.kind()) == pc);
            let mut j: i32 = 0;
            while j < n
                invariant
                    0 <= j <= n <= 56,
                    keys.wf(),
                    key == start ^ tally::column(pc, j as int),
                decreases n - j,
            {
                proof {
                    tally::lemma_xor(
                        start,
                        tally::column(pc, j as int),
                        zobrist::psq_key(pc, 8 + j),
                    );
                }
                key = key ^ keys.psq(pc, Square::new(8 + j as usize));
                j += 1;
            }
        } else {
            proof {
                tally::lemma_column_gap(pc, tally::count_of(b, pc));
            }
        }
        code += 1;
    }
    key
}

/// Recompute every derived field of a state from the board alone.
pub(crate) fn set_state(board: &Board, keys: &Tables, stm: Color, st: &mut StateInfo)
    requires
        board.wf(),
        keys.wf(),
        placement::kings(board@),
        state::roomy(board@),
    ensures
        final(st).tallied(board@),
        final(st).keyed(board@, stm),
        final(st).surveyed(board@, stm),
        final(st).checked(board@, stm),
        final(st).rule50 == old(st).rule50,
        final(st).plies_from_null == old(st).plies_from_null,
        final(st).ep_square == old(st).ep_square,
        final(st).castling_rights == old(st).castling_rights,
        final(st).captured_piece == old(st).captured_piece,
        final(st).repetition == old(st).repetition,
{
    broadcast use Square::lemma_idx;

    tally_board(board, keys, st);
    let e: Key = match st.ep_square {
        SquareOrNone::At(sq) => keys.en_passant(sq.file()),
        SquareOrNone::NONE => 0,
    };
    let s: Key = match stm {
        Color::White => 0,
        Color::Black => keys.side,
    };
    st.key = st.key ^ ((e ^ s) ^ keys.castling(st.castling_rights));
    let ksq = board.king_square(stm);
    let attackers = board.attackers_to_occ(ksq, board.occupied());
    let enemy = board.colored(stm.flip());
    st.checkers = attackers & enemy;
    proof {
        broadcast use bits::group_bits;

        assert forall|i: int| #[trigger] st.checkers.has(i) == state::checks(
            board@,
            stm.opp(),
            placement::king(board@, stm),
            i,
        ) by {
            assert(st.checkers.has(i) == (attackers.has(i) && enemy.has(i)));
        }
    }
    survey(board, st, stm);
}

/// True when no piece stands on the board more than 56 times.
fn is_roomy(board: &Board) -> (r: bool)
    requires
        board.wf(),
    ensures
        r == state::roomy(board@),
{
    let mut code: u8 = 0;
    while code < 16
        invariant
            code <= 16,
            board.wf(),
            forall|pc: Piece|
                pc.is_real() && pc.code() < code ==> #[trigger] tally::count_of(board@, pc) <= 56,
        decreases 16 - code,
    {
        let pc = Piece::from_raw(code);
        if pc.piece_type() != PieceType::NoType {
            assert(Piece::of(pc.side(), pc.kind()) == pc);
            if board.count(pc.color(), pc.piece_type()) > 56 {
                return false;
            }
        }
        assert forall|q: Piece| q.is_real() && q.code() < code + 1 implies #[trigger] tally::count_of(
            board@,
            q,
        ) <= 56 by {
            if q.code() == code {
                assert(q == pc);
            }
        }
        code += 1;
    }
    true
}

impl Position {
    /// Replace the position with the one `fen` describes.
    ///
    /// The whole state chain is reset: after this call the position has no history. After an
    /// error the board is blank.
    pub fn set(&mut self, fen: &str, chess960: bool) -> (r: Result<(), FenError>)
        ensures
            (match read_fen(vstd::utf8::encode_utf8(fen@)) {
                Ok(su) => r.is_ok() && is_set_up(final(self), su, chess960),
                Err(e) => r == Err::<(), FenError>(e) && final(self).is_blank(),
            }),
    {
        match Position::read(fen.as_bytes(), chess960) {
            Ok(p) => {
                *self = p;
                Ok(())
            },
            Err(e) => {
                *self = Position::blank();
                Err(e)
            },
        }
    }

    /// The position that the bytes of a record describe.
    fn read(s: &[u8], chess960: bool) -> (r: Result<Position, FenError>)
        ensures
            (match read_fen(s@) {
                Ok(su) => r matches Ok(p) && is_set_up(&p, su, chess960),
                Err(e) => r matches Err(d) && d == e,
            }),
    {
        let (a0, e0) = next_word(s, 0);
        let (a1, e1) = next_word(s, e0);
        let (a2, e2) = next_word(s, e1);
        let (a3, e3) = next_word(s, e2);
        let (a4, e4) = next_word(s, e3);
        let (a5, e5) = next_word(s, e4);
        proof {
            reveal_with_fuel(text::word_span, 7);
            assert(text::word_span(s@, 0) == (a0 as int, e0 as int));
            assert(text::word_span(s@, 1) == (a1 as int, e1 as int));
            assert(text::word_span(s@, 2) == (a2 as int, e2 as int));
            assert(text::word_span(s@, 3) == (a3 as int, e3 as int));
            assert(text::word_span(s@, 4) == (a4 as int, e4 as int));
            assert(text::word_span(s@, 5) == (a5 as int, e5 as int));
        }
        if a0 >= e0 {
            return Err(FenError::Board);
        }
        let board = match parse_board(vstd::slice::slice_subrange(s, a0, e0)) {
            Some(b) => b,
            None => {
                return Err(FenError::Board);
            },
        };
        let side_word = vstd::slice::slice_subrange(s, a1, e1);
        let stm = if side_word.len() == 1 && side_word[0] == 119 {
            assert(side_word@ =~= seq![119u8]);
            Color::White
        } else if side_word.len() == 1 && side_word[0] == 98 {
            assert(side_word@ =~= seq![98u8]);
            assert(side_word@ != seq![119u8]);
            Color::Black
        } else {
            assert(side_word@ != seq![119u8] && side_word@ != seq![98u8]);
            return Err(FenError::SideToMove);
        };
        // Both kings must exist before castling rights can name a rook relative to one.
        if board.count(Color::White, PieceType::King) != 1 || board.count(
            Color::Black,
            PieceType::King,
        ) != 1 {
            return Err(FenError::Kings);
        }
        let dash: [u8; 1] = [45];
        assert(dash@ =~= seq![45u8]);
        let castling_word = if a2 < e2 {
            vstd::slice::slice_subrange(s, a2, e2)
        } else {
            vstd::array::array_as_slice(&dash)
        };
        assert(castling_word@ == or_dash(text::word(s@, 2)));
        let (castling, rights) = match parse_castling(&board, castling_word) {
            Some(x) => x,
            None => {
                return Err(FenError::Castling);
            },
        };
        let ep_word = if a3 < e3 {
            vstd::slice::slice_subrange(s, a3, e3)
        } else {
            vstd::array::array_as_slice(&dash)
        };
        assert(ep_word@ == or_dash(text::word(s@, 3)));
        let ep = match parse_ep(&board, stm, ep_word) {
            Some(ep) => ep,
            None => {
                return Err(FenError::EnPassant);
            },
        };
        let rule50: i32 = number_or(s, a4, e4, 0);
        let fullmove: i32 = number_or(s, a5, e5, 1);
        let black: i64 = match stm {
            Color::White => 0,
            Color::Black => 1,
        };
        let moves: i64 = if fullmove >= 1 {
            fullmove as i64 - 1
        } else {
            0
        };
        let game_ply: i64 = moves * 2 + black;
        if game_ply > 2_147_483_647 {
            return Err(FenError::Board);
        }
        let mut st = StateInfo::empty();
        st.ep_square = ep;
        st.castling_rights = rights;
        st.rule50 = rule50;
        let keys = zobrist::build();
        let mut states: Vec<StateInfo> = Vec::new();
        states.push(st);
        let mut p = Position {
            board,
            side_to_move: stm,
            game_ply: game_ply as i32,
            castling,
            chess960,
            states,
            keys: Arc::new(keys),
        };
        // The side not to move must not be in check: that position could never arise.
        let them = stm.flip();
        if p.attacked_by(p.occupied(), stm, p.king_square(them)) {
            return Err(FenError::OppositeCheck);
        }
        if !is_roomy(&p.board) {
            return Err(FenError::Board);
        }
        set_state(&p.board, &p.keys, stm, &mut st);
        let mut states: Vec<StateInfo> = Vec::new();
        states.push(st);
        p.states = states;
        Ok(p)
    }

    /// The position described by `fen`, in the standard or Chess960 castling dialect.
    pub fn from_fen(fen: &str, chess960: bool) -> (r: Result<Position, FenError>)
        ensures
            (match read_fen(vstd::utf8::encode_utf8(fen@)) {
                Ok(su) => r matches Ok(p) && is_set_up(&p, su, chess960),
                Err(e) => r matches Err(d) && d == e,
            }),
    {
        Position::read(fen.as_bytes(), chess960)
    }

    /// Check that every incrementally maintained field agrees with a recomputation from
    /// scratch.
    pub fn state_is_consistent(&self) -> (r: bool)
        requires
            self.sound(),
            placement::kings(self.board@),
            state::roomy(self.board@),
        ensures
            r == (self.top().tallied(self.board@) && self.top().keyed(
                self.board@,
                self.side_to_move,
            ) && self.top().checked(self.board@, self.side_to_move)),
    {
        let saved = self.st();
        let mut now = *saved;
        set_state(&self.board, &self.keys, self.side_to_move, &mut now);
        proof {
            if saved.checked(self.board@, self.side_to_move) {
                assert forall|i: int| 0 <= i < 64 implies #[trigger] bits::bit(saved.checkers.0, i)
                    == bits::bit(now.checkers.0, i) by {
                    assert(saved.checkers.has(i) == now.checkers.has(i));
                }
                bits::lemma_ext(saved.checkers.0, now.checkers.0);
            }
        }
        saved.key == now.key && saved.pawn_key == now.pawn_key && saved.minor_piece_key
            == now.minor_piece_key && saved.non_pawn_key[0] == now.non_pawn_key[0]
            && saved.non_pawn_key[1] == now.non_pawn_key[1] && saved.material_key == now.material_key
            && saved.non_pawn_material[0] == now.non_pawn_material[0] && saved.non_pawn_material[1]
            == now.non_pawn_material[1] && saved.checkers == now.checkers
    }
}

/// The number in the word between `a` and `e`, or the default.
fn number_or(s: &[u8], a: usize, e: usize, default: i32) -> (r: i32)
    requires
        a <= e <= s@.len(),
    ensures
        r == or_number(
            if a < e {
                Some(s@.subrange(a as int, e as int))
            } else {
                None
            },
            default as int,
        ),
{
    if a < e {
        match parse_i32(vstd::slice::slice_subrange(s, a, e)) {
            Some(n) => n,
            None => default,
        }
    } else {
        default
    }
}

// ---------------------------------------------------------------------------
// Writing
// ---------------------------------------------------------------------------

/// A run of `n` empty squares, nothing for none.
pub open spec fn run_text(n: int) -> Seq<char> {
    if n > 0 {
        seq![(48 + n) as char]
    } else {
        Seq::empty()
    }
}

/// The text of a rank from `file` on, after a run of `run` empty squares.
pub open spec fn rank_text(b: Seq<Piece>, rank: int, file: int, run: int) -> Seq<char>
    decreases 8 - file,
{
    if file >= 8 {
        run_text(run)
    } else {
        let pc = b[8 * rank + file];
        if pc == Piece::NONE {
            rank_text(b, rank, file + 1, run + 1)
        } else {
            run_text(run) + seq![pc.letter() as char] + rank_text(b, rank, file + 1, 0)
        }
    }
}

/// The text of the ranks from `rank` down, with slashes between.
pub open spec fn board_text(b: Seq<Piece>, rank: int) -> Seq<char>
    decreases rank,
{
    if rank <= 0 {
        rank_text(b, 0, 0, 0)
    } else {
        rank_text(b, rank, 0, 0) + seq!['/'] + board_text(b, rank - 1)
    }
}

/// The other colour's piece of the same kind.
pub open spec fn recolored(pc: Piece) -> Piece {
    if pc.is_real() {
        Piece::of(pc.side().opp(), pc.kind())
    } else {
        pc
    }
}

/// The placement mirrored vertically, with the colours swapped.
pub open spec fn mirrored(b: Seq<Piece>) -> Seq<Piece> {
    Seq::new(64, |i: int| recolored(b[Square::mirrored(i)]))
}

/// The placement, mirrored or as it is.
pub open spec fn seen(b: Seq<Piece>, mirror: bool) -> Seq<Piece> {
    if mirror {
        mirrored(b)
    } else {
        b
    }
}

/// The letter of one castling right: the wing, or in Chess960 the rook's file. `lower` asks
/// for lower case.
pub open spec fn right_letter(rook: SquareOrNone, king_side: bool, lower: bool, chess960: bool) -> char {
    let shift: int = if lower {
        32
    } else {
        0
    };
    if chess960 {
        match rook {
            SquareOrNone::At(s) => (65 + s.idx() % 8 + shift) as char,
            SquareOrNone::NONE => '-',
        }
    } else if king_side {
        (75 + shift) as char
    } else {
        (81 + shift) as char
    }
}

/// The letter of the right of `c` when it is held, nothing when not. `swap` exchanges the
/// cases of the two colours.
#[verifier::opaque]
pub open spec fn right_text(
    rights: CastlingRights,
    rooks: Seq<SquareOrNone>,
    chess960: bool,
    swap: bool,
    c: Color,
    king_side: bool,
) -> Seq<char> {
    let cr = CastlingRights::wing(c, king_side);
    if rights.has(cr) {
        seq![right_letter(rooks[cr.nibble()], king_side, (c == Color::Black) != swap, chess960)]
    } else {
        Seq::empty()
    }
}

/// The castling field.
pub open spec fn castling_text(
    rights: CastlingRights,
    rooks: Seq<SquareOrNone>,
    chess960: bool,
    swap: bool,
) -> Seq<char> {
    if rights == CastlingRights::of(false, false, false, false) {
        seq!['-']
    } else {
        right_text(rights, rooks, chess960, swap, Color::White, true) + right_text(
            rights,
            rooks,
            chess960,
            swap,
            Color::White,
            false,
        ) + right_text(rights, rooks, chess960, swap, Color::Black, true) + right_text(
            rights,
            rooks,
            chess960,
            swap,
            Color::Black,
            false,
        )
    }
}

/// The letter of the side to move.
pub open spec fn side_letter(c: Color) -> char {
    match c {
        Color::White => 'w',
        Color::Black => 'b',
    }
}

/// The en-passant field; mirrored, the third rank and the sixth change places.
pub open spec fn ep_text(ep: SquareOrNone, mirror: bool) -> Seq<char> {
    match ep {
        SquareOrNone::At(s) => if mirror {
            seq![
                (97 + s.idx() % 8) as char,
                if s.idx() / 8 == 2 {
                    '6'
                } else {
                    '3'
                },
            ]
        } else {
            Square::name(s.idx())
        },
        SquareOrNone::NONE => seq!['-'],
    }
}

/// The move number at a given ply.
pub open spec fn move_number(game_ply: int, stm: Color) -> int {
    1 + crate::board::types::trunc_div(
        game_ply - (if stm == Color::Black {
            1int
        } else {
            0int
        }),
        2,
    )
}

impl Position {
    /// The record of the position, or of its mirror image.
    pub open spec fn record_text(&self, mirror: bool) -> Seq<char> {
        let st = self.top();
        board_text(seen(self.board@, mirror), 7) + seq![
            ' ',
            side_letter(
                if mirror {
                    self.side_to_move.opp()
                } else {
                    self.side_to_move
                },
            ),
            ' ',
        ] + castling_text(
            st.castling_rights,
            self.castling.rook_square@,
            self.chess960,
            mirror,
        ) + seq![' '] + ep_text(st.ep_square, mirror) + seq![' '] + text::signed_decimal(
            st.rule50 as int,
        ) + seq![' '] + text::signed_decimal(move_number(self.game_ply as int, self.side_to_move))
    }

    /// The piece on `sq` as the record shows it.
    fn shown(&self, sq: Square, mirror: bool) -> (r: Piece)
        ensures
            r == seen(self.board@, mirror)[sq.idx()],
    {
        broadcast use Square::lemma_idx;

        if mirror {
            let pc = self.piece_on(sq.flip_rank());
            let pt = pc.piece_type();
            if pt == PieceType::NoType {
                pc
            } else {
                Piece::new(pc.color().flip(), pt)
            }
        } else {
            self.piece_on(sq)
        }
    }

    /// Append one rank of the placement field.
    fn push_rank(&self, s: &mut String, rank: usize, mirror: bool)
        requires
            rank < 8,
            placement::clean(self.board@),
        ensures
            final(s)@ == old(s)@ + rank_text(seen(self.board@, mirror), rank as int, 0, 0),
    {
        let ghost b = seen(self.board@, mirror);
        let ghost start = s@;
        let mut run: u8 = 0;
        let mut file: usize = 0;
        assert(s@ + rank_text(b, rank as int, 0, 0) =~= start + rank_text(b, rank as int, 0, 0));
        while file < 8
            invariant
                file <= 8,
                rank < 8,
                run <= file,
                b == seen(self.board@, mirror),
                s@ + rank_text(b, rank as int, file as int, run as int) == start + rank_text(
                    b,
                    rank as int,
                    0,
                    0,
                ),
            decreases 8 - file,
        {
            let pc = self.shown(Square::make(File::new(file), Rank::new(rank)), mirror);
            let ghost before = s@;
            if pc.is_none() {
                run += 1;
            } else {
                if run > 0 {
                    s.push((48 + run) as char);
                }
                assert(s@ =~= before + run_text(run as int));
                s.push(pc.to_char() as char);
                assert(s@ + rank_text(b, rank as int, file + 1, 0) =~= before + (run_text(run as int)
                    + seq![pc.letter() as char] + rank_text(b, rank as int, file + 1, 0)));
                run = 0;
            }
            file += 1;
        }
        let ghost before = s@;
        if run > 0 {
            s.push((48 + run) as char);
        }
        assert(s@ =~= before + run_text(run as int));
    }

    /// Append the placement field.
    fn push_board(&self, s: &mut String, mirror: bool)
        requires
            placement::clean(self.board@),
        ensures
            final(s)@ == old(s)@ + board_text(seen(self.board@, mirror), 7),
    {
        let ghost b = seen(self.board@, mirror);
        let ghost start = s@;
        let mut rank: usize = 7;
        while rank > 0
            invariant
                rank <= 7,
                placement::clean(self.board@),
                b == seen(self.board@, mirror),
                s@ + board_text(b, rank as int) == start + board_text(b, 7),
            decreases rank,
        {
            let ghost before = s@;
            self.push_rank(s, rank, mirror);
            s.push('/');
            assert(s@ + board_text(b, rank - 1) =~= before + (rank_text(b, rank as int, 0, 0) + seq![
                '/',
            ] + board_text(b, rank - 1)));
            rank -= 1;
        }
        self.push_rank(s, 0, mirror);
    }

    /// Append the letter of one castling right, when it is held.
    fn push_right(&self, s: &mut String, c: Color, king_side: bool, swap: bool)
        requires
            self.states@.len() >= 1,
        ensures
            final(s)@ == old(s)@ + right_text(
                self.top().castling_rights,
                self.castling.rook_square@,
                self.chess960,
                swap,
                c,
                king_side,
            ),
    {
        proof {
            reveal(right_text);
        }
        let cr = if king_side {
            CastlingRights::king_side(c)
        } else {
            CastlingRights::queen_side(c)
        };
        let black = match c {
            Color::White => false,
            Color::Black => true,
        };
        let shift: u8 = if black != swap {
            32
        } else {
            0
        };
        if self.st().castling_rights.contains(cr) {
            if self.chess960 {
                match self.castling_rook_square(cr) {
                    SquareOrNone::At(sq) => {
                        s.push((65 + sq.file().index() as u8 + shift) as char);
                    },
                    SquareOrNone::NONE => {
                        s.push('-');
                    },
                }
            } else if king_side {
                s.push((75 + shift) as char);
            } else {
                s.push((81 + shift) as char);
            }
        }
        assert(s@ =~= old(s)@ + right_text(
            self.top().castling_rights,
            self.castling.rook_square@,
            self.chess960,
            swap,
            c,
            king_side,
        ));
    }

    /// Append the castling field.
    fn push_castling(&self, s: &mut String, swap: bool)
        requires
            self.states@.len() >= 1,
        ensures
            final(s)@ == old(s)@ + castling_text(
                self.top().castling_rights,
                self.castling.rook_square@,
                self.chess960,
                swap,
            ),
    {
        if self.st().castling_rights.is_empty() {
            s.push('-');
        } else {
            self.push_right(s, Color::White, true, swap);
            self.push_right(s, Color::White, false, swap);
            self.push_right(s, Color::Black, true, swap);
            self.push_right(s, Color::Black, false, swap);
        }
        assert(s@ =~= old(s)@ + castling_text(
            self.top().castling_rights,
            self.castling.rook_square@,
            self.chess960,
            swap,
        ));
    }

    /// Append the en-passant field.
    fn push_ep(&self, s: &mut String, mirror: bool)
        requires
            self.states@.len() >= 1,
        ensures
            final(s)@ == old(s)@ + ep_text(self.top().ep_square, mirror),
    {
        broadcast use Square::lemma_idx;

        match self.st().ep_square {
            SquareOrNone::At(sq) => {
                s.push(sq.file().to_char() as char);
                if mirror {
                    if sq.rank() == Rank::R3 {
                        s.push('6');
                    } else {
                        s.push('3');
                    }
                } else {
                    s.push(sq.rank().to_char() as char);
                }
            },
            SquareOrNone::NONE => {
                s.push('-');
            },
        }
        assert(s@ =~= old(s)@ + ep_text(self.top().ep_square, mirror));
    }

    /// The record of the position, or of its mirror image.
    fn write_record(&self, mirror: bool) -> (r: String)
        requires
            self.sound(),
            self.game_ply >= 0,
        ensures
            r@ == self.record_text(mirror),
    {
        let mut s = String::new();
        let ghost st = self.top();
        self.push_board(&mut s, mirror);
        let ghost p0 = board_text(seen(self.board@, mirror), 7);
        assert(s@ =~= p0);
        s.push(' ');
        let stm = if mirror {
            self.side_to_move.flip()
        } else {
            self.side_to_move
        };
        match stm {
            Color::White => s.push('w'),
            Color::Black => s.push('b'),
        }
        s.push(' ');
        let ghost p1 = p0 + seq![' ', side_letter(stm), ' '];
        assert(s@ =~= p1);
        self.push_castling(&mut s, mirror);
        let ghost p2 = p1 + castling_text(
            st.castling_rights,
            self.castling.rook_square@,
            self.chess960,
            mirror,
        );
        s.push(' ');
        let ghost p3 = p2 + seq![' '];
        assert(s@ =~= p3);
        self.push_ep(&mut s, mirror);
        let ghost p4 = p3 + ep_text(st.ep_square, mirror);
        s.push(' ');
        let ghost p5 = p4 + seq![' '];
        assert(s@ =~= p5);
        text::push_signed(&mut s, self.st().rule50 as i64);
        let ghost p6 = p5 + text::signed_decimal(st.rule50 as int);
        s.push(' ');
        let ghost p7 = p6 + seq![' '];
        assert(s@ =~= p7);
        let black: i64 = match self.side_to_move {
            Color::White => 0,
            Color::Black => 1,
        };
        let plies: i64 = self.game_ply as i64 - black;
        let number: i64 = if plies < 0 {
            1
        } else {
            1 + plies / 2
        };
        assert(number == move_number(self.game_ply as int, self.side_to_move));
        text::push_signed(&mut s, number);
        assert(s@ == self.record_text(mirror));
        s
    }

    /// The position's FEN record.
    pub fn fen(&self) -> (r: String)
        requires
            self.sound(),
            self.game_ply >= 0,
        ensures
            r@ == self.record_text(false),
    {
        self.write_record(false)
    }

    /// Mirror the position vertically and swap the colours.
    ///
    /// The mirrored record is written and read again. The state chain is replaced: the
    /// mirrored position never occurred in this game. After an error the position is
    /// unchanged.
    pub fn flip(&mut self) -> (r: Result<(), FenError>)
        requires
            old(self).sound(),
            old(self).game_ply >= 0,
        ensures
            (match read_fen(vstd::utf8::encode_utf8(old(self).record_text(true))) {
                Ok(su) => r.is_ok() && is_set_up(final(self), su, old(self).chess960),
                Err(e) => r == Err::<(), FenError>(e) && final(self).same(old(self)),
            }),
    {
        let record = self.write_record(true);
        match Position::from_fen(record.as_str(), self.chess960) {
            Ok(p) => {
                *self = p;
                Ok(())
            },
            Err(e) => Err(e),
        }
    }
}

} // verus!
