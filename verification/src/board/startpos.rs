//! The position a game begins with, and copies of a position.

use vstd::prelude::*;
use std::sync::Arc;
use crate::board::fen::{set_castling_right, set_state};
use crate::board::fen;
use crate::board::placement::Board;
use crate::board::placement;
use crate::board::position::{Castling, Position};
use crate::board::state::StateInfo;
use crate::board::state;
use crate::board::tally;
use crate::board::text;
use crate::board::types::{CastlingRights, Color, Piece, PieceType, Square, SquareOrNone};
use crate::board::zobrist;

verus! {

/// The record of the position a game begins with.
pub const START_FEN: &'static str = "rnbqkbnr/pppppppp/8/8/8/8/PPPPPPPP/RNBQKBNR w KQkq - 0 1";

/// What stands behind the pawns on each file.
pub open spec fn officer(file: int) -> PieceType {
    if file == 0 || file == 7 {
        PieceType::Rook
    } else if file == 1 || file == 6 {
        PieceType::Knight
    } else if file == 2 || file == 5 {
        PieceType::Bishop
    } else if file == 3 {
        PieceType::Queen
    } else {
        PieceType::King
    }
}

/// The piece that begins the game on square `i`.
pub open spec fn start_piece(i: int) -> Piece {
    if i / 8 == 0 {
        Piece::of(Color::White, officer(i % 8))
    } else if i / 8 == 1 {
        Piece::W_PAWN
    } else if i / 8 == 6 {
        Piece::B_PAWN
    } else if i / 8 == 7 {
        Piece::of(Color::Black, officer(i % 8))
    } else {
        Piece::NONE
    }
}

/// The placement a game begins with.
pub open spec fn start_board() -> Seq<Piece> {
    Seq::new(64, |i: int| start_piece(i))
}

/// The game's beginning: White to move, every castling right, both clocks at their start.
pub open spec fn start_setup() -> fen::Setup {
    let b = start_board();
    let x1 = fen::record(fen::no_rights(), b, Color::White, 7);
    let x2 = fen::record(x1, b, Color::White, 0);
    let x3 = fen::record(x2, b, Color::Black, 63);
    let x4 = fen::record(x3, b, Color::Black, 56);
    fen::Setup {
        b,
        stm: Color::White,
        castling: x4,
        ep: SquareOrNone::NONE,
        rule50: 0,
        game_ply: 0,
    }
}

/// The officers of a colour, in the letters of the record.
proof fn lemma_officers_text(b: Seq<Piece>, c: Color, rank: int, letters: Seq<char>)
    requires
        b == start_board(),
        rank == (if c == Color::White {
            0int
        } else {
            7int
        }),
        letters == (if c == Color::White {
            seq!['R', 'N', 'B', 'Q', 'K', 'B', 'N', 'R']
        } else {
            seq!['r', 'n', 'b', 'q', 'k', 'b', 'n', 'r']
        }),
    ensures
        fen::rank_text(b, rank, 0, 0) == letters,
{
    reveal_with_fuel(fen::rank_text, 9);
    assert(fen::rank_text(b, rank, 0, 0) =~= letters);
}

/// A rank of pawns, in the letters of the record.
proof fn lemma_pawns_text(b: Seq<Piece>, c: Color, rank: int)
    requires
        b == start_board(),
        rank == (if c == Color::White {
            1int
        } else {
            6int
        }),
    ensures
        fen::rank_text(b, rank, 0, 0) == Seq::new(
            8,
            |i: int|
                if c == Color::White {
                    'P'
                } else {
                    'p'
                },
        ),
{
    reveal_with_fuel(fen::rank_text, 9);
}

/// An empty rank is a run of eight.
proof fn lemma_empty_text(b: Seq<Piece>, rank: int)
    requires
        b == start_board(),
        2 <= rank <= 5,
    ensures
        fen::rank_text(b, rank, 0, 0) == seq!['8'],
{
    reveal_with_fuel(fen::rank_text, 9);
}

/// The placement field of the beginning.
proof fn lemma_start_placement()
    ensures
        fen::board_text(start_board(), 7) == "rnbqkbnr/pppppppp/8/8/8/8/PPPPPPPP/RNBQKBNR"@,
{
    let b = start_board();
    reveal_strlit("rnbqkbnr/pppppppp/8/8/8/8/PPPPPPPP/RNBQKBNR");
    lemma_officers_text(b, Color::White, 0, seq!['R', 'N', 'B', 'Q', 'K', 'B', 'N', 'R']);
    lemma_officers_text(b, Color::Black, 7, seq!['r', 'n', 'b', 'q', 'k', 'b', 'n', 'r']);
    lemma_pawns_text(b, Color::White, 1);
    lemma_pawns_text(b, Color::Black, 6);
    lemma_empty_text(b, 2);
    lemma_empty_text(b, 3);
    lemma_empty_text(b, 4);
    lemma_empty_text(b, 5);
    reveal_with_fuel(fen::board_text, 8);
    assert(fen::board_text(b, 7) =~= "rnbqkbnr/pppppppp/8/8/8/8/PPPPPPPP/RNBQKBNR"@);
}

/// The castling field of the beginning.
proof fn lemma_start_castling(rights: CastlingRights, rooks: Seq<SquareOrNone>)
    requires
        rights == CastlingRights::of(true, true, true, true),
    ensures
        fen::castling_text(rights, rooks, false, false) == seq!['K', 'Q', 'k', 'q'],
{
    reveal(fen::right_text);
    assert(fen::castling_text(rights, rooks, false, false) =~= seq!['K', 'Q', 'k', 'q']);
}

/// The position a game begins with is written as `START_FEN`.
proof fn lemma_start_text(p: &Position)
    requires
        fen::is_set_up(p, start_setup(), false),
    ensures
        p.record_text(false) == START_FEN@,
{
    lemma_start();
    lemma_start_placement();
    assert(start_setup().castling.rights == CastlingRights::of(true, true, true, true));
    lemma_start_castling(p.top().castling_rights, p.castling.rook_square@);
    reveal_strlit("rnbqkbnr/pppppppp/8/8/8/8/PPPPPPPP/RNBQKBNR w KQkq - 0 1");
    reveal_strlit("rnbqkbnr/pppppppp/8/8/8/8/PPPPPPPP/RNBQKBNR");
    assert(text::signed_decimal(0) == seq!['0']);
    assert(fen::move_number(0, Color::White) == 1);
    assert(text::signed_decimal(1) == seq!['1']);
    assert(p.record_text(false) =~= START_FEN@);
}

/// A stretch of the board without `pc` adds nothing to its count.
pub proof fn lemma_count_skip(b: Seq<Piece>, pc: Piece, i: int, j: int)
    requires
        0 <= i <= j <= 64,
        forall|k: int| i <= k < j ==> #[trigger] b[k] != pc,
    ensures
        tally::count_upto(b, pc, j) == tally::count_upto(b, pc, i),
    decreases j,
{
    if i < j {
        lemma_count_skip(b, pc, i, j - 1);
    }
}

/// The beginning has one king of each colour, and no piece too often.
pub proof fn lemma_start()
    ensures
        placement::kings(start_board()),
        state::roomy(start_board()),
        placement::king(start_board(), Color::White) == 4,
        placement::king(start_board(), Color::Black) == 60,
{
    let b = start_board();
    lemma_count_skip(b, Piece::W_KING, 0, 4);
    assert(b[4] == Piece::W_KING);
    lemma_count_skip(b, Piece::W_KING, 5, 64);
    lemma_count_skip(b, Piece::B_KING, 0, 60);
    assert(b[60] == Piece::B_KING);
    lemma_count_skip(b, Piece::B_KING, 61, 64);
    assert(tally::count_upto(b, Piece::W_KING, 0) == 0);
    assert(tally::count_upto(b, Piece::B_KING, 0) == 0);
    assert forall|pc: Piece| pc.is_real() implies #[trigger] tally::count_of(b, pc) <= 56 by {
        lemma_count_skip(b, pc, 16, 48);
        tally::lemma_count_bounds(b, pc, 16);
        lemma_count_tail(b, pc, 48, 64);
    }
    placement::lemma_king(b, Color::White);
    placement::lemma_king(b, Color::Black);
}

/// A stretch of the board adds at most one per square to a count.
pub proof fn lemma_count_tail(b: Seq<Piece>, pc: Piece, i: int, j: int)
    requires
        0 <= i <= j <= 64,
    ensures
        tally::count_upto(b, pc, j) <= tally::count_upto(b, pc, i) + (j - i),
    decreases j,
{
    if i < j {
        lemma_count_tail(b, pc, i, j - 1);
    }
}

/// The piece type behind the pawns on a file.
fn officer_on(file: usize) -> (r: PieceType)
    requires
        file < 8,
    ensures
        r == officer(file as int),
{
    match file {
        0 | 7 => PieceType::Rook,
        1 | 6 => PieceType::Knight,
        2 | 5 => PieceType::Bishop,
        3 => PieceType::Queen,
        _ => PieceType::King,
    }
}

/// The pieces in their first places.
fn start_pieces() -> (r: Board)
    ensures
        r.wf(),
        r@ == start_board(),
{
    broadcast use Square::lemma_idx;

    let mut board = Board::empty();
    let mut i: usize = 0;
    while i < 64
        invariant
            i <= 64,
            board.wf(),
            board@ == Seq::new(
                64,
                |j: int|
                    if j < i {
                        start_piece(j)
                    } else {
                        Piece::NONE
                    },
            ),
        decreases 64 - i,
    {
        let sq = Square::new(i);
        let ghost before = board@;
        if i < 8 {
            board.put_piece(Piece::new(Color::White, officer_on(i % 8)), sq);
        } else if i < 16 {
            board.put_piece(Piece::W_PAWN, sq);
        } else if i >= 56 {
            board.put_piece(Piece::new(Color::Black, officer_on(i % 8)), sq);
        } else if i >= 48 {
            board.put_piece(Piece::B_PAWN, sq);
        }
        i += 1;
        assert(board@ =~= Seq::new(
            64,
            |j: int|
                if j < i {
                    start_piece(j)
                } else {
                    Piece::NONE
                },
        ));
    }
    assert(board@ =~= start_board());
    board
}

impl Position {
    /// The position a game begins with.
    pub fn startpos() -> (r: Position)
        ensures
            fen::is_set_up(&r, start_setup(), false),
            r.record_text(false) == START_FEN@,
    {
        broadcast use {Square::lemma_idx, Square::lemma_inj};

        let board = start_pieces();
        proof {
            reveal(Square::idx);
            lemma_start();
        }
        let ghost b = board@;
        let mut castling = Castling::empty();
        let none = CastlingRights::none();
        let ghost x = fen::no_rights();
        assert(fen::castling_agrees(&castling, none, b, x));
        let ghost x1 = fen::record(x, b, Color::White, 7);
        let ghost x2 = fen::record(x1, b, Color::White, 0);
        let ghost x3 = fen::record(x2, b, Color::Black, 63);
        let r1 = set_castling_right(&board, &mut castling, none, Color::White, Square::H1, Ghost(x));
        let r2 = set_castling_right(&board, &mut castling, r1, Color::White, Square::A1, Ghost(x1));
        let r3 = set_castling_right(&board, &mut castling, r2, Color::Black, Square::H8, Ghost(x2));
        let r4 = set_castling_right(&board, &mut castling, r3, Color::Black, Square::A8, Ghost(x3));
        let mut st = StateInfo::empty();
        st.castling_rights = r4;
        let keys = zobrist::build();
        set_state(&board, &keys, Color::White, &mut st);
        let mut states: Vec<StateInfo> = Vec::new();
        states.push(st);
        let start = Position {
            board,
            side_to_move: Color::White,
            game_ply: 0,
            castling,
            chess960: false,
            states,
            keys: Arc::new(keys),
        };
        proof {
            lemma_start_text(&start);
        }
        start
    }
}

impl Default for Position {
    /// The position a game begins with.
    fn default() -> (r: Position)
        ensures
            fen::is_set_up(&r, start_setup(), false),
            r.record_text(false) == START_FEN@,
    {
        Position::startpos()
    }
}

impl Clone for Position {
    /// A copy with the same history.
    fn clone(&self) -> (r: Position)
        ensures
            r.same(self),
            r.board == self.board,
            r.keys == self.keys,
            self.sound() ==> r.sound(),
            self.wf() ==> r.wf(),
    {
        let states = self.states.clone();
        assert(states@ =~= self.states@);
        Position {
            board: self.board,
            side_to_move: self.side_to_move,
            game_ply: self.game_ply,
            castling: self.castling,
            chess960: self.chess960,
            states,
            keys: self.keys.clone(),
        }
    }
}

} // verus!
