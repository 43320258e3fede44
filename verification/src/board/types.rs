//! The value domain of the engine: colours, pieces, squares, moves and scores.
//!
//! Every type here is small, `Copy` and closed: each value of it is meaningful, so no
//! function over these types has to check one. Files, ranks, squares and pieces are
//! enumerations; a move is the packed sixteen-bit word that tables store.
//!
//! A constructor that takes a number the caller computed requires it to be in range. A
//! constructor that reads back an encoding of this module is total where every bit pattern
//! is an encoding, and otherwise requires one. Neither masks.

use vstd::prelude::*;
use std::ops::{Add, Div, Mul, Neg, Not, Sub};
use vstd::std_specs::convert::FromSpecImpl;
use vstd::std_specs::ops::{AddSpecImpl, DivSpecImpl, MulSpecImpl, NegSpecImpl, NotSpecImpl, SubSpecImpl};
use crate::board::bits;

verus! {

/// Number of colours.
pub const COLOR_NB: usize = 2;

/// `PieceType::NoType` plus the six real piece types.
pub const PIECE_TYPE_NB: usize = 7;

/// Eight codes per colour, sparse: `colour << 3 | type`.
pub const PIECE_NB: usize = 16;

/// Squares on the board.
pub const SQUARE_NB: usize = 64;

/// Files on the board.
pub const FILE_NB: usize = 8;

/// Ranks on the board.
pub const RANK_NB: usize = 8;

/// Upper bound on legal moves in any reachable position.
pub const MAX_MOVES: usize = 256;

/// Upper bound on search depth in plies.
pub const MAX_PLY: usize = 246;

// ---------------------------------------------------------------------------
// Colour
// ---------------------------------------------------------------------------

/// The side to move, and the owner of a piece.
#[derive(Clone, Copy, Debug, PartialEq, Eq, PartialOrd, Ord, Hash, Structural)]
pub enum Color {
    White,
    Black,
}

impl Color {
    /// Every colour, in index order.
    pub const ALL: [Color; 2] = [Color::White, Color::Black];

    /// The index of this colour: White is 0, Black is 1.
    pub open spec fn idx(self) -> int {
        match self {
            Color::White => 0,
            Color::Black => 1,
        }
    }

    /// The other colour.
    pub open spec fn opp(self) -> Color {
        match self {
            Color::White => Color::Black,
            Color::Black => Color::White,
        }
    }

    /// The colour with index `i`.
    #[inline(always)]
    pub fn from_index(i: usize) -> (r: Color)
        requires
            i < 2,
        ensures
            r.idx() == i,
    {
        if i == 0 {
            Color::White
        } else {
            Color::Black
        }
    }

    /// The other colour.
    #[inline(always)]
    pub fn flip(self) -> (r: Color)
        ensures
            r == self.opp(),
    {
        match self {
            Color::White => Color::Black,
            Color::Black => Color::White,
        }
    }

    /// Index this colour into a table of `COLOR_NB` entries.
    #[inline(always)]
    pub fn index(self) -> (r: usize)
        ensures
            r == self.idx(),
            r < 2,
    {
        self as usize
    }
}

impl Not for Color {
    type Output = Color;

    /// The other side.
    #[inline(always)]
    fn not(self) -> (r: Color) {
        match self {
            Color::White => Color::Black,
            Color::Black => Color::White,
        }
    }
}

impl NotSpecImpl for Color {
    open spec fn obeys_not_spec() -> bool {
        true
    }

    open spec fn not_req(self) -> bool {
        true
    }

    open spec fn not_spec(self) -> Color {
        self.opp()
    }
}

// ---------------------------------------------------------------------------
// Piece type and piece
// ---------------------------------------------------------------------------

/// A piece kind with no colour attached.
///
/// `NoType` doubles as "all pieces": the by-type table of a position keeps the occupancy of
/// every piece at index 0.
#[derive(Clone, Copy, Debug, PartialEq, Eq, PartialOrd, Ord, Hash, Structural)]
pub enum PieceType {
    NoType,
    Pawn,
    Knight,
    Bishop,
    Rook,
    Queen,
    King,
}

impl PieceType {
    /// Index 0 of the by-type occupancy table.
    pub const ALL_PIECES: PieceType = PieceType::NoType;

    /// The six real piece types in generation order.
    pub const REAL: [PieceType; 6] = [
        PieceType::Pawn,
        PieceType::Knight,
        PieceType::Bishop,
        PieceType::Rook,
        PieceType::Queen,
        PieceType::King,
    ];

    /// The index of this piece type.
    pub open spec fn idx(self) -> int {
        match self {
            PieceType::NoType => 0,
            PieceType::Pawn => 1,
            PieceType::Knight => 2,
            PieceType::Bishop => 3,
            PieceType::Rook => 4,
            PieceType::Queen => 5,
            PieceType::King => 6,
        }
    }

    /// The piece type with index `i`; `NoType` for an index that names no piece.
    pub open spec fn of_index(i: int) -> PieceType {
        if i == 1 {
            PieceType::Pawn
        } else if i == 2 {
            PieceType::Knight
        } else if i == 3 {
            PieceType::Bishop
        } else if i == 4 {
            PieceType::Rook
        } else if i == 5 {
            PieceType::Queen
        } else if i == 6 {
            PieceType::King
        } else {
            PieceType::NoType
        }
    }

    /// The upper-case letter of this type, a space for `NoType`.
    pub open spec fn letter(self) -> u8 {
        match self {
            PieceType::NoType => 32u8,
            PieceType::Pawn => 80u8,
            PieceType::Knight => 78u8,
            PieceType::Bishop => 66u8,
            PieceType::Rook => 82u8,
            PieceType::Queen => 81u8,
            PieceType::King => 75u8,
        }
    }

    /// The piece type with index `i`.
    #[inline(always)]
    pub fn from_index(i: usize) -> (r: PieceType)
        requires
            i < 7,
        ensures
            r.idx() == i,
    {
        match i {
            0 => PieceType::NoType,
            1 => PieceType::Pawn,
            2 => PieceType::Knight,
            3 => PieceType::Bishop,
            4 => PieceType::Rook,
            5 => PieceType::Queen,
            _ => PieceType::King,
        }
    }

    /// Index this piece type into a table of `PIECE_TYPE_NB` entries.
    #[inline(always)]
    pub fn index(self) -> (r: usize)
        ensures
            r == self.idx(),
            r < 7,
    {
        self as usize
    }

    /// The type named by the low three bits of a piece encoding. Seven names no piece and
    /// reads as `NoType`.
    #[inline(always)]
    pub fn from_low3(v: u8) -> (r: PieceType)
        ensures
            r == PieceType::of_index(v as int % 8),
    {
        proof {
            bits::lemma_u8_fields(v);
        }
        match v & 7 {
            1 => PieceType::Pawn,
            2 => PieceType::Knight,
            3 => PieceType::Bishop,
            4 => PieceType::Rook,
            5 => PieceType::Queen,
            6 => PieceType::King,
            _ => PieceType::NoType,
        }
    }

    /// The character used for this type in FEN, upper case.
    pub fn to_char(self) -> (r: u8)
        ensures
            r == self.letter(),
    {
        match self {
            PieceType::NoType => 32u8,
            PieceType::Pawn => 80u8,
            PieceType::Knight => 78u8,
            PieceType::Bishop => 66u8,
            PieceType::Rook => 82u8,
            PieceType::Queen => 81u8,
            PieceType::King => 75u8,
        }
    }

    /// The type a letter names, in either case.
    pub open spec fn of_letter(c: u8) -> Option<PieceType> {
        if c == 80 || c == 112 {
            Some(PieceType::Pawn)
        } else if c == 78 || c == 110 {
            Some(PieceType::Knight)
        } else if c == 66 || c == 98 {
            Some(PieceType::Bishop)
        } else if c == 82 || c == 114 {
            Some(PieceType::Rook)
        } else if c == 81 || c == 113 {
            Some(PieceType::Queen)
        } else if c == 75 || c == 107 {
            Some(PieceType::King)
        } else {
            None
        }
    }

    /// Parse a FEN piece letter, case-insensitively. `None` for anything else.
    pub fn from_char(c: u8) -> (r: Option<PieceType>)
        ensures
            r == PieceType::of_letter(c),
    {
        match c {
            80u8 | 112u8 => Some(PieceType::Pawn),
            78u8 | 110u8 => Some(PieceType::Knight),
            66u8 | 98u8 => Some(PieceType::Bishop),
            82u8 | 114u8 => Some(PieceType::Rook),
            81u8 | 113u8 => Some(PieceType::Queen),
            75u8 | 107u8 => Some(PieceType::King),
            _ => None,
        }
    }
}

/// A piece with its colour. The code of a piece is `colour << 3 | type`.
///
/// Codes 7, 8 and 15 name no piece. They are values of the type so that every nibble of a
/// packed record decodes; no position holds one.
#[allow(non_camel_case_types)]
#[derive(Clone, Copy, Debug, PartialEq, Eq, PartialOrd, Ord, Hash, Structural)]
pub enum Piece {
    NONE,
    W_PAWN,
    W_KNIGHT,
    W_BISHOP,
    W_ROOK,
    W_QUEEN,
    W_KING,
    W_GAP,
    B_NONE,
    B_PAWN,
    B_KNIGHT,
    B_BISHOP,
    B_ROOK,
    B_QUEEN,
    B_KING,
    B_GAP,
}

impl Piece {
    /// The code of this piece: eight times the colour plus the type.
    pub open spec fn code(self) -> int {
        match self {
            Piece::NONE => 0,
            Piece::W_PAWN => 1,
            Piece::W_KNIGHT => 2,
            Piece::W_BISHOP => 3,
            Piece::W_ROOK => 4,
            Piece::W_QUEEN => 5,
            Piece::W_KING => 6,
            Piece::W_GAP => 7,
            Piece::B_NONE => 8,
            Piece::B_PAWN => 9,
            Piece::B_KNIGHT => 10,
            Piece::B_BISHOP => 11,
            Piece::B_ROOK => 12,
            Piece::B_QUEEN => 13,
            Piece::B_KING => 14,
            Piece::B_GAP => 15,
        }
    }

    /// The owner of a piece.
    pub open spec fn side(self) -> Color {
        if self.code() < 8 {
            Color::White
        } else {
            Color::Black
        }
    }

    /// The kind of a piece.
    pub open spec fn kind(self) -> PieceType {
        match self {
            Piece::W_PAWN | Piece::B_PAWN => PieceType::Pawn,
            Piece::W_KNIGHT | Piece::B_KNIGHT => PieceType::Knight,
            Piece::W_BISHOP | Piece::B_BISHOP => PieceType::Bishop,
            Piece::W_ROOK | Piece::B_ROOK => PieceType::Rook,
            Piece::W_QUEEN | Piece::B_QUEEN => PieceType::Queen,
            Piece::W_KING | Piece::B_KING => PieceType::King,
            _ => PieceType::NoType,
        }
    }

    /// The piece of colour `c` and type `pt`.
    pub open spec fn of(c: Color, pt: PieceType) -> Piece {
        match (c, pt) {
            (Color::White, PieceType::NoType) => Piece::NONE,
            (Color::White, PieceType::Pawn) => Piece::W_PAWN,
            (Color::White, PieceType::Knight) => Piece::W_KNIGHT,
            (Color::White, PieceType::Bishop) => Piece::W_BISHOP,
            (Color::White, PieceType::Rook) => Piece::W_ROOK,
            (Color::White, PieceType::Queen) => Piece::W_QUEEN,
            (Color::White, PieceType::King) => Piece::W_KING,
            (Color::Black, PieceType::NoType) => Piece::B_NONE,
            (Color::Black, PieceType::Pawn) => Piece::B_PAWN,
            (Color::Black, PieceType::Knight) => Piece::B_KNIGHT,
            (Color::Black, PieceType::Bishop) => Piece::B_BISHOP,
            (Color::Black, PieceType::Rook) => Piece::B_ROOK,
            (Color::Black, PieceType::Queen) => Piece::B_QUEEN,
            (Color::Black, PieceType::King) => Piece::B_KING,
        }
    }

    /// A piece that can stand on a board.
    pub open spec fn is_real(self) -> bool {
        self.kind() != PieceType::NoType
    }

    /// Build `colour << 3 | type`.
    #[inline(always)]
    pub fn new(c: Color, pt: PieceType) -> (r: Piece)
        ensures
            r == Piece::of(c, pt),
            r.code() == 8 * c.idx() + pt.idx(),
            r.side() == c,
            r.kind() == pt,
    {
        match c {
            Color::White => match pt {
                PieceType::NoType => Piece::NONE,
                PieceType::Pawn => Piece::W_PAWN,
                PieceType::Knight => Piece::W_KNIGHT,
                PieceType::Bishop => Piece::W_BISHOP,
                PieceType::Rook => Piece::W_ROOK,
                PieceType::Queen => Piece::W_QUEEN,
                PieceType::King => Piece::W_KING,
            },
            Color::Black => match pt {
                PieceType::NoType => Piece::B_NONE,
                PieceType::Pawn => Piece::B_PAWN,
                PieceType::Knight => Piece::B_KNIGHT,
                PieceType::Bishop => Piece::B_BISHOP,
                PieceType::Rook => Piece::B_ROOK,
                PieceType::Queen => Piece::B_QUEEN,
                PieceType::King => Piece::B_KING,
            },
        }
    }

    /// Read a piece back from its code.
    #[inline(always)]
    pub fn from_raw(v: u8) -> (r: Piece)
        requires
            v < 16,
        ensures
            r.code() == v,
    {
        match v {
            0 => Piece::NONE,
            1 => Piece::W_PAWN,
            2 => Piece::W_KNIGHT,
            3 => Piece::W_BISHOP,
            4 => Piece::W_ROOK,
            5 => Piece::W_QUEEN,
            6 => Piece::W_KING,
            7 => Piece::W_GAP,
            8 => Piece::B_NONE,
            9 => Piece::B_PAWN,
            10 => Piece::B_KNIGHT,
            11 => Piece::B_BISHOP,
            12 => Piece::B_ROOK,
            13 => Piece::B_QUEEN,
            14 => Piece::B_KING,
            _ => Piece::B_GAP,
        }
    }

    /// The code as a byte, for packed records.
    #[inline(always)]
    pub fn raw(self) -> (r: u8)
        ensures
            r == self.code(),
            r < 16,
    {
        self as u8
    }

    /// Index this piece into a table of `PIECE_NB` entries.
    #[inline(always)]
    pub fn index(self) -> (r: usize)
        ensures
            r == self.code(),
            r < 16,
    {
        self as usize
    }

    /// The owning colour. `Piece::NONE` reads as White.
    #[inline(always)]
    pub fn color(self) -> (r: Color)
        ensures
            r == self.side(),
    {
        if (self as u8) < 8 {
            Color::White
        } else {
            Color::Black
        }
    }

    /// The kind, without the colour.
    #[inline(always)]
    pub fn piece_type(self) -> (r: PieceType)
        ensures
            r == self.kind(),
    {
        match self {
            Piece::W_PAWN | Piece::B_PAWN => PieceType::Pawn,
            Piece::W_KNIGHT | Piece::B_KNIGHT => PieceType::Knight,
            Piece::W_BISHOP | Piece::B_BISHOP => PieceType::Bishop,
            Piece::W_ROOK | Piece::B_ROOK => PieceType::Rook,
            Piece::W_QUEEN | Piece::B_QUEEN => PieceType::Queen,
            Piece::W_KING | Piece::B_KING => PieceType::King,
            _ => PieceType::NoType,
        }
    }

    /// True for `Piece::NONE`.
    #[inline(always)]
    pub fn is_none(self) -> (r: bool)
        ensures
            r == (self == Piece::NONE),
    {
        self as u8 == 0
    }

    /// The FEN letter of this piece: upper case for White, lower for Black.
    pub open spec fn letter(self) -> u8 {
        if self == Piece::NONE {
            32u8
        } else if self.side() == Color::White || self.kind() == PieceType::NoType {
            self.kind().letter()
        } else {
            (self.kind().letter() + 32) as u8
        }
    }

    /// The FEN letter: upper case for White, lower for Black.
    pub fn to_char(self) -> (r: u8)
        ensures
            r == self.letter(),
    {
        if self.is_none() {
            return 32u8;
        }
        let c = self.piece_type().to_char();
        match self.color() {
            Color::White => c,
            Color::Black => if c == 32u8 {
                c
            } else {
                c + 32
            },
        }
    }

    /// The piece a letter names: the case selects the colour.
    pub open spec fn of_letter(c: u8) -> Option<Piece> {
        match PieceType::of_letter(c) {
            Some(pt) => Some(Piece::of(if 65 <= c <= 90 { Color::White } else { Color::Black }, pt)),
            None => None,
        }
    }

    /// Parse a FEN piece letter. Case selects the colour.
    pub fn from_char(c: u8) -> (r: Option<Piece>)
        ensures
            r == Piece::of_letter(c),
    {
        match PieceType::from_char(c) {
            Some(pt) => {
                let color = if c >= 65u8 && c <= 90u8 { Color::White } else { Color::Black };
                Some(Piece::new(color, pt))
            },
            None => None,
        }
    }
}

// ---------------------------------------------------------------------------
// Square, file, rank
// ---------------------------------------------------------------------------

/// A board file, `A` through `H`.
#[derive(Clone, Copy, Debug, PartialEq, Eq, PartialOrd, Ord, Hash, Structural)]
pub enum File {
    A,
    B,
    C,
    D,
    E,
    F,
    G,
    H,
}

impl File {
    /// The index of this file, 0 for the a-file.
    pub open spec fn idx(self) -> int {
        match self {
            File::A => 0,
            File::B => 1,
            File::C => 2,
            File::D => 3,
            File::E => 4,
            File::F => 5,
            File::G => 6,
            File::H => 7,
        }
    }

    /// The file with index `i`.
    #[inline(always)]
    pub fn new(i: usize) -> (r: File)
        requires
            i < 8,
        ensures
            r.idx() == i,
    {
        match i {
            0 => File::A,
            1 => File::B,
            2 => File::C,
            3 => File::D,
            4 => File::E,
            5 => File::F,
            6 => File::G,
            _ => File::H,
        }
    }

    /// Index this file into a table of `FILE_NB` entries.
    #[inline(always)]
    pub fn index(self) -> (r: usize)
        ensures
            r == self.idx(),
            r < 8,
    {
        self as usize
    }

    /// The lower-case letter naming this file.
    #[inline(always)]
    pub fn to_char(self) -> (r: u8)
        ensures
            r == 97 + self.idx(),
    {
        97u8 + self as u8
    }
}

/// A board rank; index 0 is rank 1.
#[derive(Clone, Copy, Debug, PartialEq, Eq, PartialOrd, Ord, Hash, Structural)]
pub enum Rank {
    R1,
    R2,
    R3,
    R4,
    R5,
    R6,
    R7,
    R8,
}

impl Rank {
    /// The index of this rank, 0 for rank 1.
    pub open spec fn idx(self) -> int {
        match self {
            Rank::R1 => 0,
            Rank::R2 => 1,
            Rank::R3 => 2,
            Rank::R4 => 3,
            Rank::R5 => 4,
            Rank::R6 => 5,
            Rank::R7 => 6,
            Rank::R8 => 7,
        }
    }

    /// The rank with index `i`.
    #[inline(always)]
    pub fn new(i: usize) -> (r: Rank)
        requires
            i < 8,
        ensures
            r.idx() == i,
    {
        match i {
            0 => Rank::R1,
            1 => Rank::R2,
            2 => Rank::R3,
            3 => Rank::R4,
            4 => Rank::R5,
            5 => Rank::R6,
            6 => Rank::R7,
            _ => Rank::R8,
        }
    }

    /// Index this rank into a table of `RANK_NB` entries.
    #[inline(always)]
    pub fn index(self) -> (r: usize)
        ensures
            r == self.idx(),
            r < 8,
    {
        self as usize
    }

    /// The digit naming this rank.
    #[inline(always)]
    pub fn to_char(self) -> (r: u8)
        ensures
            r == 49 + self.idx(),
    {
        49u8 + self as u8
    }
}

/// A board square, a1 first and rank by rank, so that the index of a square is eight times
/// its rank plus its file.
///
/// A `Square` is always a real square. "A square, or nothing" is [`SquareOrNone`].
#[derive(Clone, Copy, Debug, PartialEq, Eq, PartialOrd, Ord, Hash, Structural)]
pub enum Square {
    A1, B1, C1, D1, E1, F1, G1, H1,
    A2, B2, C2, D2, E2, F2, G2, H2,
    A3, B3, C3, D3, E3, F3, G3, H3,
    A4, B4, C4, D4, E4, F4, G4, H4,
    A5, B5, C5, D5, E5, F5, G5, H5,
    A6, B6, C6, D6, E6, F6, G6, H6,
    A7, B7, C7, D7, E7, F7, G7, H7,
    A8, B8, C8, D8, E8, F8, G8, H8,
}

impl Square {
    /// The index of this square, 0 for a1 and 63 for h8.
    #[verifier::opaque]
    pub open spec fn idx(self) -> int {
        match self {
            Square::A1 => 0, Square::B1 => 1, Square::C1 => 2, Square::D1 => 3,
            Square::E1 => 4, Square::F1 => 5, Square::G1 => 6, Square::H1 => 7,
            Square::A2 => 8, Square::B2 => 9, Square::C2 => 10, Square::D2 => 11,
            Square::E2 => 12, Square::F2 => 13, Square::G2 => 14, Square::H2 => 15,
            Square::A3 => 16, Square::B3 => 17, Square::C3 => 18, Square::D3 => 19,
            Square::E3 => 20, Square::F3 => 21, Square::G3 => 22, Square::H3 => 23,
            Square::A4 => 24, Square::B4 => 25, Square::C4 => 26, Square::D4 => 27,
            Square::E4 => 28, Square::F4 => 29, Square::G4 => 30, Square::H4 => 31,
            Square::A5 => 32, Square::B5 => 33, Square::C5 => 34, Square::D5 => 35,
            Square::E5 => 36, Square::F5 => 37, Square::G5 => 38, Square::H5 => 39,
            Square::A6 => 40, Square::B6 => 41, Square::C6 => 42, Square::D6 => 43,
            Square::E6 => 44, Square::F6 => 45, Square::G6 => 46, Square::H6 => 47,
            Square::A7 => 48, Square::B7 => 49, Square::C7 => 50, Square::D7 => 51,
            Square::E7 => 52, Square::F7 => 53, Square::G7 => 54, Square::H7 => 55,
            Square::A8 => 56, Square::B8 => 57, Square::C8 => 58, Square::D8 => 59,
            Square::E8 => 60, Square::F8 => 61, Square::G8 => 62, Square::H8 => 63,
        }
    }

    /// The square with index `i`.
    pub open spec fn at(i: int) -> Square {
        choose|s: Square| s.idx() == i
    }

    /// The index of a square is on the board.
    pub broadcast proof fn lemma_idx(self)
        ensures
            0 <= #[trigger] self.idx() < 64,
    {
        reveal(Square::idx);
    }

    /// Squares with one index are one square.
    pub broadcast proof fn lemma_inj(a: Square, b: Square)
        requires
            #[trigger] a.idx() == #[trigger] b.idx(),
        ensures
            a == b,
    {
        reveal(Square::idx);
    }

    /// Every index below 64 has its square.
    pub broadcast proof fn lemma_at(i: int)
        requires
            0 <= i < 64,
        ensures
            (#[trigger] Square::at(i)).idx() == i,
    {
        reveal(Square::idx);
        assert(Square::A1.idx() == 0);
        assert(Square::B1.idx() == 1);
        assert(Square::C1.idx() == 2);
        assert(Square::D1.idx() == 3);
        assert(Square::E1.idx() == 4);
        assert(Square::F1.idx() == 5);
        assert(Square::G1.idx() == 6);
        assert(Square::H1.idx() == 7);
        assert(Square::A2.idx() == 8);
        assert(Square::B2.idx() == 9);
        assert(Square::C2.idx() == 10);
        assert(Square::D2.idx() == 11);
        assert(Square::E2.idx() == 12);
        assert(Square::F2.idx() == 13);
        assert(Square::G2.idx() == 14);
        assert(Square::H2.idx() == 15);
        assert(Square::A3.idx() == 16);
        assert(Square::B3.idx() == 17);
        assert(Square::C3.idx() == 18);
        assert(Square::D3.idx() == 19);
        assert(Square::E3.idx() == 20);
        assert(Square::F3.idx() == 21);
        assert(Square::G3.idx() == 22);
        assert(Square::H3.idx() == 23);
        assert(Square::A4.idx() == 24);
        assert(Square::B4.idx() == 25);
        assert(Square::C4.idx() == 26);
        assert(Square::D4.idx() == 27);
        assert(Square::E4.idx() == 28);
        assert(Square::F4.idx() == 29);
        assert(Square::G4.idx() == 30);
        assert(Square::H4.idx() == 31);
        assert(Square::A5.idx() == 32);
        assert(Square::B5.idx() == 33);
        assert(Square::C5.idx() == 34);
        assert(Square::D5.idx() == 35);
        assert(Square::E5.idx() == 36);
        assert(Square::F5.idx() == 37);
        assert(Square::G5.idx() == 38);
        assert(Square::H5.idx() == 39);
        assert(Square::A6.idx() == 40);
        assert(Square::B6.idx() == 41);
        assert(Square::C6.idx() == 42);
        assert(Square::D6.idx() == 43);
        assert(Square::E6.idx() == 44);
        assert(Square::F6.idx() == 45);
        assert(Square::G6.idx() == 46);
        assert(Square::H6.idx() == 47);
        assert(Square::A7.idx() == 48);
        assert(Square::B7.idx() == 49);
        assert(Square::C7.idx() == 50);
        assert(Square::D7.idx() == 51);
        assert(Square::E7.idx() == 52);
        assert(Square::F7.idx() == 53);
        assert(Square::G7.idx() == 54);
        assert(Square::H7.idx() == 55);
        assert(Square::A8.idx() == 56);
        assert(Square::B8.idx() == 57);
        assert(Square::C8.idx() == 58);
        assert(Square::D8.idx() == 59);
        assert(Square::E8.idx() == 60);
        assert(Square::F8.idx() == 61);
        assert(Square::G8.idx() == 62);
        assert(Square::H8.idx() == 63);
        assert(exists|s: Square| s.idx() == i);
    }

    /// The square with index `i`.
    #[inline(always)]
    pub fn new(i: usize) -> (r: Square)
        requires
            i < 64,
        ensures
            r.idx() == i,
            r == Square::at(i as int),
    {
        proof {
            reveal(Square::idx);
            Square::lemma_at(i as int);
            assert forall|s: Square| s.idx() == i implies s == Square::at(i as int) by {
                Square::lemma_inj(s, Square::at(i as int));
            }
        }
        match i {
            0 => Square::A1, 1 => Square::B1, 2 => Square::C1, 3 => Square::D1,
            4 => Square::E1, 5 => Square::F1, 6 => Square::G1, 7 => Square::H1,
            8 => Square::A2, 9 => Square::B2, 10 => Square::C2, 11 => Square::D2,
            12 => Square::E2, 13 => Square::F2, 14 => Square::G2, 15 => Square::H2,
            16 => Square::A3, 17 => Square::B3, 18 => Square::C3, 19 => Square::D3,
            20 => Square::E3, 21 => Square::F3, 22 => Square::G3, 23 => Square::H3,
            24 => Square::A4, 25 => Square::B4, 26 => Square::C4, 27 => Square::D4,
            28 => Square::E4, 29 => Square::F4, 30 => Square::G4, 31 => Square::H4,
            32 => Square::A5, 33 => Square::B5, 34 => Square::C5, 35 => Square::D5,
            36 => Square::E5, 37 => Square::F5, 38 => Square::G5, 39 => Square::H5,
            40 => Square::A6, 41 => Square::B6, 42 => Square::C6, 43 => Square::D6,
            44 => Square::E6, 45 => Square::F6, 46 => Square::G6, 47 => Square::H6,
            48 => Square::A7, 49 => Square::B7, 50 => Square::C7, 51 => Square::D7,
            52 => Square::E7, 53 => Square::F7, 54 => Square::G7, 55 => Square::H7,
            56 => Square::A8, 57 => Square::B8, 58 => Square::C8, 59 => Square::D8,
            60 => Square::E8, 61 => Square::F8, 62 => Square::G8, _ => Square::H8,
        }
    }

    /// The square on `file` and `rank`.
    #[inline(always)]
    pub fn make(file: File, rank: Rank) -> (r: Square)
        ensures
            r.idx() == 8 * rank.idx() + file.idx(),
    {
        Square::new(rank.index() * 8 + file.index())
    }

    /// Index this square into a table of `SQUARE_NB` entries.
    #[inline(always)]
    pub fn index(self) -> (r: usize)
        ensures
            r == self.idx(),
            r < 64,
    {
        proof {
            reveal(Square::idx);
        }
        self as usize
    }

    /// The index as a byte, for packed records.
    #[inline(always)]
    pub fn raw(self) -> (r: u8)
        ensures
            r == self.idx(),
            r < 64,
    {
        proof {
            reveal(Square::idx);
        }
        self as u8
    }

    /// This square, in the type that can also be nothing.
    #[inline(always)]
    pub fn some(self) -> (r: SquareOrNone)
        ensures
            r == SquareOrNone::At(self),
    {
        SquareOrNone::At(self)
    }

    /// The file this square stands on.
    #[inline(always)]
    pub fn file(self) -> (r: File)
        ensures
            r.idx() == self.idx() % 8,
    {
        File::new(self.index() % 8)
    }

    /// The rank this square stands on.
    #[inline(always)]
    pub fn rank(self) -> (r: Rank)
        ensures
            r.idx() == self.idx() / 8,
    {
        Rank::new(self.index() / 8)
    }

    /// The index of the square on the other side of the board's horizontal axis.
    pub open spec fn mirrored(i: int) -> int {
        8 * (7 - i / 8) + i % 8
    }

    /// Mirror across the horizontal axis: a1 becomes a8.
    #[inline(always)]
    pub fn flip_rank(self) -> (r: Square)
        ensures
            r.idx() == Square::mirrored(self.idx()),
    {
        let i: usize = self.index();
        Square::new(8 * (7 - i / 8) + i % 8)
    }

    /// Mirror across the vertical axis: a1 becomes h1.
    #[inline(always)]
    pub fn flip_file(self) -> (r: Square)
        ensures
            r.idx() == 8 * (self.idx() / 8) + (7 - self.idx() % 8),
    {
        let i: usize = self.index();
        Square::new(8 * (i / 8) + (7 - i % 8))
    }

    /// The rank index of square `i` seen from `c`'s side.
    pub open spec fn rel_rank(i: int, c: Color) -> int {
        match c {
            Color::White => i / 8,
            Color::Black => 7 - i / 8,
        }
    }

    /// The rank seen from `c`'s side: index 0 is that colour's own back rank.
    #[inline(always)]
    pub fn relative_rank(self, c: Color) -> (r: Rank)
        ensures
            r.idx() == Square::rel_rank(self.idx(), c),
    {
        match c {
            Color::White => self.rank(),
            Color::Black => Rank::new(7 - self.index() / 8),
        }
    }

    /// The square as `c` sees it: itself for White, vertically mirrored for Black.
    #[inline(always)]
    pub fn relative(self, c: Color) -> (r: Square)
        ensures
            c == Color::White ==> r == self,
            c == Color::Black ==> r.idx() == Square::mirrored(self.idx()),
    {
        match c {
            Color::White => self,
            Color::Black => self.flip_rank(),
        }
    }

    /// Step one square in direction `d`, where the step stays among the 64 indices. The
    /// step may wrap around a file edge; [`Square::try_shift`] is for a step that may also
    /// leave the board.
    #[inline(always)]
    pub fn shift(self, d: Direction) -> (r: Square)
        requires
            0 <= self.idx() + d.delta() < 64,
        ensures
            r.idx() == self.idx() + d.delta(),
    {
        Square::new((self.index() as i32 + d.offset()) as usize)
    }

    /// Step one square in direction `d`, or `None` when the step leaves the 64 indices. A
    /// step that stays may still have wrapped around a file edge.
    #[inline(always)]
    pub fn try_shift(self, d: Direction) -> (r: Option<Square>)
        ensures
            r.is_some() <==> 0 <= self.idx() + d.delta() < 64,
            r matches Some(s) ==> s.idx() == self.idx() + d.delta(),
    {
        let stepped: i32 = self.index() as i32 + d.offset();
        if stepped >= 0 && stepped < 64 {
            Some(Square::new(stepped as usize))
        } else {
            None
        }
    }

    /// The larger of the file distance and the rank distance of two squares.
    pub open spec fn chebyshev(a: int, b: int) -> int {
        let df = if a % 8 >= b % 8 { a % 8 - b % 8 } else { b % 8 - a % 8 };
        let dr = if a / 8 >= b / 8 { a / 8 - b / 8 } else { b / 8 - a / 8 };
        if df > dr { df } else { dr }
    }

    /// The Chebyshev distance between two squares.
    #[inline(always)]
    pub fn distance(self, other: Square) -> (r: usize)
        ensures
            r == Square::chebyshev(self.idx(), other.idx()),
            r <= 7,
    {
        let fa: usize = self.index() % 8;
        let fb: usize = other.index() % 8;
        let ra: usize = self.index() / 8;
        let rb: usize = other.index() / 8;
        let df: usize = if fa >= fb { fa - fb } else { fb - fa };
        let dr: usize = if ra >= rb { ra - rb } else { rb - ra };
        if df > dr {
            df
        } else {
            dr
        }
    }

    /// Parse algebraic coordinates such as `e4`. `None` for anything else.
    pub fn from_coords(file: u8, rank: u8) -> (r: Option<Square>)
        ensures
            r.is_some() <==> (97 <= file <= 104 && 49 <= rank <= 56),
            r matches Some(s) ==> s.idx() == 8 * (rank - 49) + (file - 97),
    {
        if file >= 97u8 && file <= 104u8 && rank >= 49u8 && rank <= 56u8 {
            Some(Square::make(File::new((file - 97u8) as usize), Rank::new((rank - 49u8) as usize)))
        } else {
            None
        }
    }

    /// Every square, a1 first.
    pub fn all() -> (r: Vec<Square>)
        ensures
            r@.len() == 64,
            forall|i: int| 0 <= i < 64 ==> (#[trigger] r@[i]).idx() == i,
    {
        let mut v: Vec<Square> = Vec::new();
        let mut i: usize = 0;
        while i < 64
            invariant
                i <= 64,
                v@.len() == i,
                forall|j: int| 0 <= j < i ==> (#[trigger] v@[j]).idx() == j,
            decreases 64 - i,
        {
            v.push(Square::new(i));
            i += 1;
        }
        v
    }

    /// The two characters of a square's algebraic name.
    pub open spec fn name(i: int) -> Seq<char> {
        seq![(97 + i % 8) as char, (49 + i / 8) as char]
    }

    /// The algebraic name, such as `e4`.
    pub fn to_string(self) -> (r: String)
        ensures
            r@ == Square::name(self.idx()),
    {
        let mut s = String::new();
        s.push(self.file().to_char() as char);
        s.push(self.rank().to_char() as char);
        s
    }
}

/// `String::push`: appends one character.
pub assume_specification[ String::push ](s: &mut String, c: char)
    ensures
        final(s)@ == old(s)@.push(c),
;

/// A square, or nothing: the en-passant target, a castling rook that a position does not
/// have.
#[derive(Clone, Copy, Debug, PartialEq, Eq, PartialOrd, Ord, Hash, Structural)]
pub enum SquareOrNone {
    At(Square),
    NONE,
}

impl SquareOrNone {
    /// True when there is no square.
    #[inline(always)]
    pub fn is_none(self) -> (r: bool)
        ensures
            r == (self == SquareOrNone::NONE),
    {
        match self {
            SquareOrNone::At(_) => false,
            SquareOrNone::NONE => true,
        }
    }

    /// True when there is one.
    #[inline(always)]
    pub fn is_some(self) -> (r: bool)
        ensures
            r == (self is At),
    {
        !self.is_none()
    }

    /// The square, if there is one.
    #[inline(always)]
    pub fn square(self) -> (r: Option<Square>)
        ensures
            r == (match self {
                SquareOrNone::At(s) => Some(s),
                SquareOrNone::NONE => None,
            }),
    {
        match self {
            SquareOrNone::At(s) => Some(s),
            SquareOrNone::NONE => None,
        }
    }

    /// The square, where there is one.
    #[inline(always)]
    pub fn unwrap(self) -> (r: Square)
        requires
            self is At,
        ensures
            self == SquareOrNone::At(r),
    {
        match self {
            SquareOrNone::At(s) => s,
            SquareOrNone::NONE => Square::A1,
        }
    }

    /// The byte of a packed record: the index of the square, 64 for none.
    pub open spec fn byte(self) -> int {
        match self {
            SquareOrNone::At(s) => s.idx(),
            SquareOrNone::NONE => 64,
        }
    }

    /// The byte of a packed record: the index of the square, 64 for none.
    #[inline(always)]
    pub fn raw(self) -> (r: u8)
        ensures
            r == self.byte(),
            r <= 64,
    {
        match self {
            SquareOrNone::At(s) => s.raw(),
            SquareOrNone::NONE => 64,
        }
    }

    /// The algebraic name, or `-` for none.
    pub open spec fn text(self) -> Seq<char> {
        match self {
            SquareOrNone::At(s) => Square::name(s.idx()),
            SquareOrNone::NONE => seq!['-'],
        }
    }

    /// The algebraic name, or `-` for none.
    pub fn to_string(self) -> (r: String)
        ensures
            r@ == self.text(),
    {
        match self {
            SquareOrNone::At(s) => s.to_string(),
            SquareOrNone::NONE => {
                let mut s = String::new();
                s.push('-');
                s
            },
        }
    }
}

/// A one-square step.
#[derive(Clone, Copy, Debug, PartialEq, Eq, Structural)]
pub enum Direction {
    North,
    East,
    South,
    West,
    NorthEast,
    SouthEast,
    SouthWest,
    NorthWest,
}

impl Direction {
    /// The step as an offset in the square numbering.
    pub open spec fn delta(self) -> int {
        match self {
            Direction::North => 8,
            Direction::East => 1,
            Direction::South => -8,
            Direction::West => -1,
            Direction::NorthEast => 9,
            Direction::SouthEast => -7,
            Direction::SouthWest => -9,
            Direction::NorthWest => 7,
        }
    }

    /// The change of file of one step.
    pub open spec fn df(self) -> int {
        match self {
            Direction::North | Direction::South => 0,
            Direction::East | Direction::NorthEast | Direction::SouthEast => 1,
            Direction::West | Direction::NorthWest | Direction::SouthWest => -1,
        }
    }

    /// The change of rank of one step.
    pub open spec fn dr(self) -> int {
        match self {
            Direction::East | Direction::West => 0,
            Direction::North | Direction::NorthEast | Direction::NorthWest => 1,
            Direction::South | Direction::SouthEast | Direction::SouthWest => -1,
        }
    }

    /// The step as an offset in the square numbering.
    #[inline(always)]
    pub fn offset(self) -> (r: i32)
        ensures
            r == self.delta(),
            -9 <= r <= 9,
    {
        match self {
            Direction::North => 8,
            Direction::East => 1,
            Direction::South => -8,
            Direction::West => -1,
            Direction::NorthEast => 9,
            Direction::SouthEast => -7,
            Direction::SouthWest => -9,
            Direction::NorthWest => 7,
        }
    }

    /// The forward direction of `c`'s pawns.
    pub open spec fn forward(c: Color) -> Direction {
        match c {
            Color::White => Direction::North,
            Color::Black => Direction::South,
        }
    }

    /// The forward direction for `c`'s pawns.
    #[inline(always)]
    pub fn pawn_push(c: Color) -> (r: Direction)
        ensures
            r == Direction::forward(c),
    {
        match c {
            Color::White => Direction::North,
            Color::Black => Direction::South,
        }
    }
}

// ---------------------------------------------------------------------------
// Castling
// ---------------------------------------------------------------------------

/// A set of castling rights. The index of a set is one nibble: White king side 1, White
/// queen side 2, Black king side 4, Black queen side 8.
#[derive(Clone, Copy, Debug, PartialEq, Eq, PartialOrd, Ord, Hash, Structural)]
pub struct CastlingRights {
    pub black_ooo: bool,
    pub black_oo: bool,
    pub white_ooo: bool,
    pub white_oo: bool,
}

impl CastlingRights {
    /// The set that holds exactly the given rights.
    pub open spec fn of(white_oo: bool, white_ooo: bool, black_oo: bool, black_ooo: bool) -> CastlingRights {
        CastlingRights { black_ooo, black_oo, white_ooo, white_oo }
    }

    /// The nibble of this set.
    pub open spec fn nibble(self) -> int {
        (if self.white_oo { 1int } else { 0 }) + (if self.white_ooo { 2int } else { 0 })
            + (if self.black_oo { 4int } else { 0 }) + (if self.black_ooo { 8int } else { 0 })
    }

    /// The one right of colour `c` on the given wing.
    pub open spec fn wing(c: Color, king_side: bool) -> CastlingRights {
        match c {
            Color::White => CastlingRights::of(king_side, !king_side, false, false),
            Color::Black => CastlingRights::of(false, false, king_side, !king_side),
        }
    }

    /// No rights.
    #[inline(always)]
    pub fn none() -> (r: CastlingRights)
        ensures
            r == CastlingRights::of(false, false, false, false),
    {
        CastlingRights { black_ooo: false, black_oo: false, white_ooo: false, white_oo: false }
    }

    /// All four rights.
    #[inline(always)]
    pub fn any() -> (r: CastlingRights)
        ensures
            r == CastlingRights::of(true, true, true, true),
    {
        CastlingRights { black_ooo: true, black_oo: true, white_ooo: true, white_oo: true }
    }

    /// The two rights belonging to `c`.
    #[inline(always)]
    pub fn for_color(c: Color) -> (r: CastlingRights)
        ensures
            r == CastlingRights::of(c == Color::White, c == Color::White, c == Color::Black, c == Color::Black),
    {
        let white = match c {
            Color::White => true,
            Color::Black => false,
        };
        CastlingRights { black_ooo: !white, black_oo: !white, white_ooo: white, white_oo: white }
    }

    /// `c`'s king-side right.
    #[inline(always)]
    pub fn king_side(c: Color) -> (r: CastlingRights)
        ensures
            r == CastlingRights::wing(c, true),
    {
        let white = match c {
            Color::White => true,
            Color::Black => false,
        };
        CastlingRights { black_ooo: false, black_oo: !white, white_ooo: false, white_oo: white }
    }

    /// `c`'s queen-side right.
    #[inline(always)]
    pub fn queen_side(c: Color) -> (r: CastlingRights)
        ensures
            r == CastlingRights::wing(c, false),
    {
        let white = match c {
            Color::White => true,
            Color::Black => false,
        };
        CastlingRights { black_ooo: !white, black_oo: false, white_ooo: white, white_oo: false }
    }

    /// Index the rights set into a table of sixteen entries.
    #[inline(always)]
    pub fn index(self) -> (r: usize)
        ensures
            r == self.nibble(),
            r < 16,
    {
        (if self.white_oo { 1usize } else { 0 }) + (if self.white_ooo { 2usize } else { 0 })
            + (if self.black_oo { 4usize } else { 0 }) + (if self.black_ooo { 8usize } else { 0 })
    }

    /// Read a set back from its nibble.
    #[inline(always)]
    pub fn from_raw(v: u8) -> (r: CastlingRights)
        requires
            v < 16,
        ensures
            r.nibble() == v,
    {
        CastlingRights {
            black_ooo: v / 8 == 1,
            black_oo: (v / 4) % 2 == 1,
            white_ooo: (v / 2) % 2 == 1,
            white_oo: v % 2 == 1,
        }
    }

    /// `other` is a subset of `self`.
    pub open spec fn has(self, other: CastlingRights) -> bool {
        &&& other.white_oo ==> self.white_oo
        &&& other.white_ooo ==> self.white_ooo
        &&& other.black_oo ==> self.black_oo
        &&& other.black_ooo ==> self.black_ooo
    }

    /// True when every right of `other` is present.
    #[inline(always)]
    pub fn contains(self, other: CastlingRights) -> (r: bool)
        ensures
            r == self.has(other),
    {
        (self.white_oo || !other.white_oo) && (self.white_ooo || !other.white_ooo)
            && (self.black_oo || !other.black_oo) && (self.black_ooo || !other.black_ooo)
    }

    /// True when no right is set.
    #[inline(always)]
    pub fn is_empty(self) -> (r: bool)
        ensures
            r == (self == CastlingRights::of(false, false, false, false)),
    {
        !self.white_oo && !self.white_ooo && !self.black_oo && !self.black_ooo
    }

    /// The rights in either set.
    pub open spec fn or(self, other: CastlingRights) -> CastlingRights {
        CastlingRights::of(
            self.white_oo || other.white_oo,
            self.white_ooo || other.white_ooo,
            self.black_oo || other.black_oo,
            self.black_ooo || other.black_ooo,
        )
    }

    /// The rights of `self` that are not in `other`.
    pub open spec fn minus(self, other: CastlingRights) -> CastlingRights {
        CastlingRights::of(
            self.white_oo && !other.white_oo,
            self.white_ooo && !other.white_ooo,
            self.black_oo && !other.black_oo,
            self.black_ooo && !other.black_ooo,
        )
    }

    /// The union of two right sets.
    #[inline(always)]
    pub fn union(self, other: CastlingRights) -> (r: CastlingRights)
        ensures
            r == self.or(other),
    {
        CastlingRights {
            black_ooo: self.black_ooo || other.black_ooo,
            black_oo: self.black_oo || other.black_oo,
            white_ooo: self.white_ooo || other.white_ooo,
            white_oo: self.white_oo || other.white_oo,
        }
    }

    /// `self` with every right of `other` removed.
    #[inline(always)]
    pub fn without(self, other: CastlingRights) -> (r: CastlingRights)
        ensures
            r == self.minus(other),
    {
        CastlingRights {
            black_ooo: self.black_ooo && !other.black_ooo,
            black_oo: self.black_oo && !other.black_oo,
            white_ooo: self.white_ooo && !other.white_ooo,
            white_oo: self.white_oo && !other.white_oo,
        }
    }

    /// The intersection of two right sets.
    #[inline(always)]
    pub fn intersect(self, other: CastlingRights) -> (r: CastlingRights)
        ensures
            r == CastlingRights::of(
                self.white_oo && other.white_oo,
                self.white_ooo && other.white_ooo,
                self.black_oo && other.black_oo,
                self.black_ooo && other.black_ooo,
            ),
    {
        CastlingRights {
            black_ooo: self.black_ooo && other.black_ooo,
            black_oo: self.black_oo && other.black_oo,
            white_ooo: self.white_ooo && other.white_ooo,
            white_oo: self.white_oo && other.white_oo,
        }
    }
}

impl Default for CastlingRights {
    /// No rights.
    fn default() -> (r: CastlingRights)
        ensures
            r == CastlingRights::of(false, false, false, false),
    {
        CastlingRights::none()
    }
}

// ---------------------------------------------------------------------------
// Moves
// ---------------------------------------------------------------------------

/// How a move changes the board beyond moving one piece.
#[derive(Clone, Copy, Debug, PartialEq, Eq, Structural)]
pub enum MoveType {
    Normal,
    Promotion,
    EnPassant,
    Castling,
}

impl MoveType {
    /// The two-bit code of this kind of move.
    pub open spec fn code(self) -> int {
        match self {
            MoveType::Normal => 0,
            MoveType::Promotion => 1,
            MoveType::EnPassant => 2,
            MoveType::Castling => 3,
        }
    }
}

/// A move packed into 16 bits: `type << 14 | (promotion - Knight) << 12 | from << 6 | to`.
///
/// The words 0 and 65 have equal squares, which no legal move has: [`Move::none`] and
/// [`Move::null`] never collide with a real move.
///
/// A castling move names the rook's square as its destination, not the king's, so that
/// Chess960 castling fits the same 16 bits as every other move.
#[derive(Clone, Copy, Debug, PartialEq, Eq, PartialOrd, Ord, Hash, Structural)]
pub struct Move(pub u16);

impl Move {
    /// The index of the square the moving piece leaves.
    pub open spec fn src(self) -> int {
        (self.0 as int / 64) % 64
    }

    /// The index of the destination square; for castling, the rook's square.
    pub open spec fn dst(self) -> int {
        self.0 as int % 64
    }

    /// What kind of move this is.
    pub open spec fn kind(self) -> MoveType {
        if self.0 as int / 16384 == 0 {
            MoveType::Normal
        } else if self.0 as int / 16384 == 1 {
            MoveType::Promotion
        } else if self.0 as int / 16384 == 2 {
            MoveType::EnPassant
        } else {
            MoveType::Castling
        }
    }

    /// The promotion piece.
    pub open spec fn promo(self) -> PieceType {
        PieceType::of_index((self.0 as int / 4096) % 4 + 2)
    }

    /// The move with the given four fields.
    pub open spec fn pack(ty: MoveType, from: int, to: int, promo: PieceType) -> Move {
        Move((ty.code() * 16384 + (promo.idx() - 2) * 4096 + from * 64 + to) as u16)
    }

    /// The empty move.
    #[inline(always)]
    pub fn none() -> (r: Move)
        ensures
            r == Move(0),
    {
        Move(0)
    }

    /// The null move, which passes the turn.
    #[inline(always)]
    pub fn null() -> (r: Move)
        ensures
            r == Move(65),
    {
        Move(65)
    }

    /// A plain move from one square to another.
    #[inline(always)]
    pub fn new(from: Square, to: Square) -> (r: Move)
        ensures
            r.0 == 64 * from.idx() + to.idx(),
            r == Move::pack(MoveType::Normal, from.idx(), to.idx(), PieceType::Knight),
            r.src() == from.idx(),
            r.dst() == to.idx(),
            r.kind() == MoveType::Normal,
    {
        Move(from.raw() as u16 * 64 + to.raw() as u16)
    }

    /// A move with an explicit type, and a promotion piece when the type is
    /// [`MoveType::Promotion`].
    ///
    /// The promotion field holds a knight, a bishop, a rook or a queen. Any other type
    /// spills into the type bits of the word, as the first clause says.
    #[inline(always)]
    pub fn typed(ty: MoveType, from: Square, to: Square, promo: PieceType) -> (r: Move)
        ensures
            r.0 == ((ty.code() as u16) << 14u16) | ((((promo.idx() + 65534) % 65536) as u16) << 12u16)
                | ((from.idx() as u16) << 6u16) | (to.idx() as u16),
            2 <= promo.idx() <= 5 ==> {
                &&& r == Move::pack(ty, from.idx(), to.idx(), promo)
                &&& r.src() == from.idx()
                &&& r.dst() == to.idx()
                &&& r.kind() == ty
                &&& r.promo() == promo
            },
    {
        let t: u16 = ty as u16;
        let p: u16 = (promo as u16).wrapping_sub(2);
        let f: u16 = from.raw() as u16;
        let d: u16 = to.raw() as u16;
        let r = Move((t << 14u16) | (p << 12u16) | (f << 6u16) | d);
        proof {
            assert(p == (promo.idx() + 65534) % 65536);
            if 2 <= promo.idx() <= 5 {
                assert(p == promo.idx() - 2);
                bits::lemma_move_pack(t, p, f, d);
                assert(r == Move::pack(ty, from.idx(), to.idx(), promo));
                law_move_fields(ty, from, to, promo);
            }
        }
        r
    }

    /// Read a move back from its word. Every word is a move.
    #[inline(always)]
    pub fn from_raw(v: u16) -> (r: Move)
        ensures
            r == Move(v),
    {
        Move(v)
    }

    /// The word of this move.
    #[inline(always)]
    pub fn raw(self) -> (r: u16)
        ensures
            r == self.0,
    {
        self.0
    }

    /// The square the moving piece leaves.
    #[inline(always)]
    pub fn from(self) -> (r: Square)
        ensures
            r.idx() == self.src(),
    {
        Square::new(((self.0 / 64) % 64) as usize)
    }

    /// The destination square; for castling, the rook's square.
    #[inline(always)]
    pub fn to(self) -> (r: Square)
        ensures
            r.idx() == self.dst(),
    {
        Square::new((self.0 % 64) as usize)
    }

    /// `from` and `to` packed together: the key of a butterfly table.
    #[inline(always)]
    pub fn from_to(self) -> (r: usize)
        ensures
            r == 64 * self.src() + self.dst(),
            r < 4096,
    {
        (self.0 % 4096) as usize
    }

    /// What kind of move this is.
    #[inline(always)]
    pub fn move_type(self) -> (r: MoveType)
        ensures
            r == self.kind(),
    {
        match self.0 / 16384 {
            0 => MoveType::Normal,
            1 => MoveType::Promotion,
            2 => MoveType::EnPassant,
            _ => MoveType::Castling,
        }
    }

    /// The promotion piece. Only meaningful when the type is [`MoveType::Promotion`].
    #[inline(always)]
    pub fn promotion_type(self) -> (r: PieceType)
        ensures
            r == self.promo(),
            2 <= r.idx() <= 5,
    {
        PieceType::from_index(((self.0 / 4096) % 4) as usize + 2)
    }

    /// True unless this is the empty move or the null move.
    #[inline(always)]
    pub fn is_ok(self) -> (r: bool)
        ensures
            r == (self != Move(0) && self != Move(65)),
    {
        self.0 != 0 && self.0 != 65
    }

    /// True for anything other than the empty move. A null move is a move here, unlike in
    /// [`Move::is_ok`].
    #[inline(always)]
    pub fn is_some(self) -> (r: bool)
        ensures
            r == (self != Move(0)),
    {
        self.0 != 0
    }

    /// True for the empty move.
    #[inline(always)]
    pub fn is_none(self) -> (r: bool)
        ensures
            r == (self == Move(0)),
    {
        self.0 == 0
    }

    /// The coordinate text of a move.
    pub open spec fn text(self) -> Seq<char> {
        if self == Move(0) {
            seq!['(', 'n', 'o', 'n', 'e', ')']
        } else if self == Move(65) {
            seq!['0', '0', '0', '0']
        } else if self.kind() == MoveType::Promotion {
            (Square::name(self.src()) + Square::name(self.dst())).push(
                (self.promo().letter() + 32) as char,
            )
        } else {
            Square::name(self.src()) + Square::name(self.dst())
        }
    }

    /// The coordinates of the move, with the promotion letter where there is one.
    pub fn to_string(self) -> (r: String)
        ensures
            r@ == self.text(),
    {
        let mut s = String::new();
        if self.is_none() {
            s.push('(');
            s.push('n');
            s.push('o');
            s.push('n');
            s.push('e');
            s.push(')');
            return s;
        }
        if self.0 == 65 {
            s.push('0');
            s.push('0');
            s.push('0');
            s.push('0');
            return s;
        }
        let from = self.from();
        let to = self.to();
        s.push(from.file().to_char() as char);
        s.push(from.rank().to_char() as char);
        s.push(to.file().to_char() as char);
        s.push(to.rank().to_char() as char);
        if self.move_type() == MoveType::Promotion {
            s.push((self.promotion_type().to_char() + 32) as char);
        }
        s
    }
}

impl Default for Move {
    /// The empty move.
    fn default() -> (r: Move)
        ensures
            r == Move(0),
    {
        Move(0)
    }
}

/// Packing a move and reading its four fields back gives those fields.
#[verifier::spinoff_prover]
#[verifier::rlimit(60)]
pub proof fn law_move_fields(ty: MoveType, from: Square, to: Square, promo: PieceType)
    requires
        2 <= promo.idx() <= 5,
    ensures
        Move::pack(ty, from.idx(), to.idx(), promo).src() == from.idx(),
        Move::pack(ty, from.idx(), to.idx(), promo).dst() == to.idx(),
        Move::pack(ty, from.idx(), to.idx(), promo).kind() == ty,
        Move::pack(ty, from.idx(), to.idx(), promo).promo() == promo,
{
    broadcast use Square::lemma_idx;

}

/// A move is its four fields: packing what was read from any word gives the word back.
pub proof fn law_move_is_its_fields(m: Move)
    ensures
        Move::pack(m.kind(), m.src(), m.dst(), m.promo()) == m,
{
}

// ---------------------------------------------------------------------------
// Values
// ---------------------------------------------------------------------------

/// A score in the centipawn domain.
///
/// A difference of two scores is a margin and not a score, while a score offset by a margin
/// is a score again: `Value - Value` is an `i32` and `Value - i32` is a `Value`.
#[derive(Clone, Copy, Debug, PartialEq, Eq, PartialOrd, Ord, Hash, Structural)]
pub struct Value(pub i32);

impl Value {
    /// Build a score from a number.
    #[inline(always)]
    pub fn new(v: i32) -> (r: Value)
        ensures
            r == Value(v),
    {
        Value(v)
    }

    /// The score as a number.
    #[inline(always)]
    pub fn get(self) -> (r: i32)
        ensures
            r == self.0,
    {
        self.0
    }

    /// Offset by a margin.
    #[inline(always)]
    pub fn offset(self, m: i32) -> (r: Value)
        requires
            i32::MIN <= self.0 + m <= i32::MAX,
        ensures
            r.0 == self.0 + m,
    {
        Value(self.0 + m)
    }

    /// Negated.
    #[inline(always)]
    pub fn negate(self) -> (r: Value)
        requires
            self.0 > i32::MIN,
        ensures
            r.0 == -self.0,
    {
        Value(-self.0)
    }

    /// The magnitude, ignoring which side the score favours.
    #[inline(always)]
    pub fn abs(self) -> (r: Value)
        requires
            self.0 > i32::MIN,
        ensures
            r.0 == if self.0 < 0 { -self.0 } else { self.0 as int },
    {
        if self.0 < 0 {
            Value(-self.0)
        } else {
            self
        }
    }
}

impl Default for Value {
    /// The zero score.
    fn default() -> (r: Value)
        ensures
            r == Value(0),
    {
        Value(0)
    }
}

impl Neg for Value {
    type Output = Value;

    #[inline(always)]
    fn neg(self) -> (r: Value) {
        Value(-self.0)
    }
}

impl NegSpecImpl for Value {
    open spec fn obeys_neg_spec() -> bool {
        true
    }

    open spec fn neg_req(self) -> bool {
        self.0 > i32::MIN
    }

    open spec fn neg_spec(self) -> Value {
        Value((-self.0) as i32)
    }
}

impl Add<i32> for Value {
    type Output = Value;

    #[inline(always)]
    fn add(self, m: i32) -> (r: Value) {
        Value(self.0 + m)
    }
}

impl AddSpecImpl<i32> for Value {
    open spec fn obeys_add_spec() -> bool {
        true
    }

    open spec fn add_req(self, m: i32) -> bool {
        i32::MIN <= self.0 + m <= i32::MAX
    }

    open spec fn add_spec(self, m: i32) -> Value {
        Value((self.0 + m) as i32)
    }
}

impl Sub<i32> for Value {
    type Output = Value;

    #[inline(always)]
    fn sub(self, m: i32) -> (r: Value) {
        Value(self.0 - m)
    }
}

impl SubSpecImpl<i32> for Value {
    open spec fn obeys_sub_spec() -> bool {
        true
    }

    open spec fn sub_req(self, m: i32) -> bool {
        i32::MIN <= self.0 - m <= i32::MAX
    }

    open spec fn sub_spec(self, m: i32) -> Value {
        Value((self.0 - m) as i32)
    }
}

/// The difference of two scores is a margin, which is not a score.
impl Sub<Value> for Value {
    type Output = i32;

    #[inline(always)]
    fn sub(self, other: Value) -> (r: i32) {
        self.0 - other.0
    }
}

impl SubSpecImpl<Value> for Value {
    open spec fn obeys_sub_spec() -> bool {
        true
    }

    open spec fn sub_req(self, other: Value) -> bool {
        i32::MIN <= self.0 - other.0 <= i32::MAX
    }

    open spec fn sub_spec(self, other: Value) -> i32 {
        (self.0 - other.0) as i32
    }
}

impl Mul<i32> for Value {
    type Output = Value;

    #[inline(always)]
    fn mul(self, k: i32) -> (r: Value) {
        Value(self.0 * k)
    }
}

impl MulSpecImpl<i32> for Value {
    open spec fn obeys_mul_spec() -> bool {
        true
    }

    open spec fn mul_req(self, k: i32) -> bool {
        i32::MIN <= self.0 * k <= i32::MAX
    }

    open spec fn mul_spec(self, k: i32) -> Value {
        Value((self.0 * k) as i32)
    }
}

/// Scaling written the other way round.
impl Mul<Value> for i32 {
    type Output = Value;

    #[inline(always)]
    fn mul(self, v: Value) -> (r: Value) {
        Value(self * v.0)
    }
}

impl MulSpecImpl<Value> for i32 {
    open spec fn obeys_mul_spec() -> bool {
        true
    }

    open spec fn mul_req(self, v: Value) -> bool {
        i32::MIN <= self * v.0 <= i32::MAX
    }

    open spec fn mul_spec(self, v: Value) -> Value {
        Value((self * v.0) as i32)
    }
}

/// The quotient of an integer division that rounds toward zero.
pub open spec fn trunc_div(a: int, b: int) -> int {
    let n = if a < 0 { -a } else { a };
    let d = if b < 0 { -b } else { b };
    if (a < 0) == (b < 0) {
        n / d
    } else {
        -(n / d)
    }
}

impl Div<i32> for Value {
    type Output = Value;

    /// The quotient rounds toward zero.
    #[inline(always)]
    fn div(self, k: i32) -> (r: Value) {
        Value(div_trunc(self.0, k))
    }
}

impl DivSpecImpl<i32> for Value {
    open spec fn obeys_div_spec() -> bool {
        true
    }

    open spec fn div_req(self, k: i32) -> bool {
        k != 0 && !(self.0 == i32::MIN && k == -1)
    }

    open spec fn div_spec(self, k: i32) -> Value {
        Value(trunc_div(self.0 as int, k as int) as i32)
    }
}

/// `a / b` rounded toward zero.
pub fn div_trunc(a: i32, b: i32) -> (r: i32)
    requires
        b != 0,
        !(a == i32::MIN && b == -1),
    ensures
        r == trunc_div(a as int, b as int),
{
    let n: i64 = if a < 0 { -(a as i64) } else { a as i64 };
    let d: i64 = if b < 0 { -(b as i64) } else { b as i64 };
    let q: i64 = n / d;
    proof {
        assert(0 <= q <= n && (d >= 2 ==> q <= n / 2)) by (nonlinear_arith)
            requires
                n >= 0,
                d >= 1,
                q == n / d,
        ;
    }
    if (a < 0) == (b < 0) {
        q as i32
    } else {
        (-q) as i32
    }
}

/// Widen for arithmetic that must not overflow an `i32`.
impl From<Value> for i64 {
    #[inline(always)]
    fn from(v: Value) -> (r: i64) {
        v.0 as i64
    }
}

impl FromSpecImpl<Value> for i64 {
    open spec fn obeys_from_spec() -> bool {
        true
    }

    open spec fn from_spec(v: Value) -> i64 {
        v.0 as i64
    }
}

/// The zero score.
pub const VALUE_ZERO: i32 = 0;

/// The score of a draw.
pub const VALUE_DRAW: i32 = 0;

/// The "no score" sentinel.
pub const VALUE_NONE: i32 = 32002;

/// A bound above every score.
pub const VALUE_INFINITE: i32 = 32001;

/// The score of a mate on the board.
pub const VALUE_MATE: i32 = 32000;

/// The least mate score: `VALUE_MATE - MAX_PLY`.
pub const VALUE_MATE_IN_MAX_PLY: i32 = 31754;

/// The greatest being-mated score.
pub const VALUE_MATED_IN_MAX_PLY: i32 = -31754;

/// The score of a tablebase win on the board.
pub const VALUE_TB: i32 = 31753;

/// The least tablebase win score: `VALUE_TB - MAX_PLY`.
pub const VALUE_TB_WIN_IN_MAX_PLY: i32 = 31507;

/// The greatest tablebase loss score.
pub const VALUE_TB_LOSS_IN_MAX_PLY: i32 = -31507;

/// The value of a pawn.
pub const PAWN_VALUE: i32 = 208;

/// The value of a knight.
pub const KNIGHT_VALUE: i32 = 781;

/// The value of a bishop.
pub const BISHOP_VALUE: i32 = 825;

/// The value of a rook.
pub const ROOK_VALUE: i32 = 1276;

/// The value of a queen.
pub const QUEEN_VALUE: i32 = 2538;

impl PieceType {
    /// The material value of a piece type; kings and nothing are worth nothing.
    pub open spec fn worth(self) -> int {
        match self {
            PieceType::Pawn => PAWN_VALUE as int,
            PieceType::Knight => KNIGHT_VALUE as int,
            PieceType::Bishop => BISHOP_VALUE as int,
            PieceType::Rook => ROOK_VALUE as int,
            PieceType::Queen => QUEEN_VALUE as int,
            _ => 0,
        }
    }
}

/// Value of a piece type.
#[inline(always)]
pub fn piece_type_value(pt: PieceType) -> (r: Value)
    ensures
        r.0 == pt.worth(),
{
    match pt {
        PieceType::Pawn => Value(PAWN_VALUE),
        PieceType::Knight => Value(KNIGHT_VALUE),
        PieceType::Bishop => Value(BISHOP_VALUE),
        PieceType::Rook => Value(ROOK_VALUE),
        PieceType::Queen => Value(QUEEN_VALUE),
        _ => Value(0),
    }
}

/// Value of a piece, whichever side owns it.
#[inline(always)]
pub fn piece_value(pc: Piece) -> (r: Value)
    ensures
        r.0 == pc.kind().worth(),
{
    piece_type_value(pc.piece_type())
}

/// The score for delivering mate in `ply` plies.
#[inline(always)]
pub fn mate_in(ply: Ply) -> (r: Value)
    requires
        VALUE_MATE - ply.0 <= i32::MAX,
    ensures
        r.0 == VALUE_MATE - ply.0,
{
    Value(VALUE_MATE - ply.0)
}

/// The score for being mated in `ply` plies.
#[inline(always)]
pub fn mated_in(ply: Ply) -> (r: Value)
    requires
        ply.0 - VALUE_MATE >= i32::MIN,
    ensures
        r.0 == ply.0 - VALUE_MATE,
{
    Value(ply.0 - VALUE_MATE)
}

/// True unless the value is the "no score" sentinel.
#[inline(always)]
pub fn is_valid(v: Value) -> (r: bool)
    ensures
        r == (v.0 != VALUE_NONE),
{
    v.0 != VALUE_NONE
}

/// True when the value is a proven win: a mate or a tablebase win.
#[inline(always)]
pub fn is_win(v: Value) -> (r: bool)
    ensures
        r == (v.0 >= VALUE_TB_WIN_IN_MAX_PLY),
{
    v.0 >= VALUE_TB_WIN_IN_MAX_PLY
}

/// True when the value is a proven loss.
#[inline(always)]
pub fn is_loss(v: Value) -> (r: bool)
    ensures
        r == (v.0 <= VALUE_TB_LOSS_IN_MAX_PLY),
{
    v.0 <= VALUE_TB_LOSS_IN_MAX_PLY
}

/// True when the value settles the game either way.
#[inline(always)]
pub fn is_decisive(v: Value) -> (r: bool)
    ensures
        r == (v.0 >= VALUE_TB_WIN_IN_MAX_PLY || v.0 <= VALUE_TB_LOSS_IN_MAX_PLY),
{
    is_win(v) || is_loss(v)
}

/// True when the value is a mate score, as distinct from a tablebase win.
#[inline(always)]
pub fn is_mate(v: Value) -> (r: bool)
    ensures
        r == (v.0 >= VALUE_MATE_IN_MAX_PLY),
{
    v.0 >= VALUE_MATE_IN_MAX_PLY
}

/// True when the value is a being-mated score.
#[inline(always)]
pub fn is_mated(v: Value) -> (r: bool)
    ensures
        r == (v.0 <= VALUE_MATED_IN_MAX_PLY),
{
    v.0 <= VALUE_MATED_IN_MAX_PLY
}

/// True when the value is a mate score for either side.
#[inline(always)]
pub fn is_mate_or_mated(v: Value) -> (r: bool)
    ensures
        r == (v.0 >= VALUE_MATE_IN_MAX_PLY || v.0 <= VALUE_MATED_IN_MAX_PLY),
{
    is_mate(v) || is_mated(v)
}

/// The score domain is in order: a mate outranks every tablebase win, a tablebase win
/// outranks every ordinary score, and a loss is the mirror of a win.
pub proof fn law_score_bands()
    ensures
        VALUE_MATE_IN_MAX_PLY == VALUE_MATE - MAX_PLY,
        VALUE_TB == VALUE_MATE_IN_MAX_PLY - 1,
        VALUE_TB_WIN_IN_MAX_PLY == VALUE_TB - MAX_PLY,
        VALUE_MATED_IN_MAX_PLY == -VALUE_MATE_IN_MAX_PLY,
        VALUE_TB_LOSS_IN_MAX_PLY == -VALUE_TB_WIN_IN_MAX_PLY,
        VALUE_MATE_IN_MAX_PLY > VALUE_TB,
        VALUE_TB_WIN_IN_MAX_PLY > 0,
{
}

// ---------------------------------------------------------------------------
// Plies
// ---------------------------------------------------------------------------

/// Distance from the root of the current search, in plies.
///
/// Distinct from [`GamePly`]: this one is zero at the root of every search, that one counts
/// from the start of the game.
#[derive(Clone, Copy, Debug, PartialEq, Eq, PartialOrd, Ord, Hash, Structural)]
pub struct Ply(pub i32);

impl Ply {
    /// The root of a search.
    #[inline(always)]
    pub fn root() -> (r: Ply)
        ensures
            r == Ply(0),
    {
        Ply(0)
    }

    /// The deepest ply a search may reach.
    #[inline(always)]
    pub fn deepest() -> (r: Ply)
        ensures
            r.0 == MAX_PLY,
    {
        Ply(246)
    }

    /// A distance from the root.
    #[inline(always)]
    pub fn new(i: i32) -> (r: Ply)
        requires
            i >= 0,
        ensures
            r == Ply(i),
    {
        Ply(i)
    }

    /// The distance as a number.
    #[inline(always)]
    pub fn get(self) -> (r: i32)
        ensures
            r == self.0,
    {
        self.0
    }

    /// Index a per-ply table.
    #[inline(always)]
    pub fn index(self) -> (r: usize)
        requires
            self.0 >= 0,
        ensures
            r == self.0,
    {
        self.0 as usize
    }

    /// One ply deeper.
    #[inline(always)]
    pub fn next(self) -> (r: Ply)
        requires
            self.0 < i32::MAX,
        ensures
            r.0 == self.0 + 1,
    {
        Ply(self.0 + 1)
    }

    /// One ply shallower.
    #[inline(always)]
    pub fn prev(self) -> (r: Ply)
        requires
            self.0 > i32::MIN,
        ensures
            r.0 == self.0 - 1,
    {
        Ply(self.0 - 1)
    }

    /// `n` plies deeper.
    #[inline(always)]
    pub fn offset(self, n: i32) -> (r: Ply)
        requires
            i32::MIN <= self.0 + n <= i32::MAX,
        ensures
            r.0 == self.0 + n,
    {
        Ply(self.0 + n)
    }
}

/// Plies since the start of the game, as the move number of a FEN implies.
#[derive(Clone, Copy, Debug, PartialEq, Eq, PartialOrd, Ord, Hash, Structural)]
pub struct GamePly(pub i32);

impl GamePly {
    /// The start of a game.
    #[inline(always)]
    pub fn start() -> (r: GamePly)
        ensures
            r == GamePly(0),
    {
        GamePly(0)
    }

    /// A count from the start of the game.
    #[inline(always)]
    pub fn new(i: i32) -> (r: GamePly)
        requires
            i >= 0,
        ensures
            r == GamePly(i),
    {
        GamePly(i)
    }

    /// The count as a number.
    #[inline(always)]
    pub fn get(self) -> (r: i32)
        ensures
            r == self.0,
    {
        self.0
    }

    /// One ply later.
    #[inline(always)]
    pub fn next(self) -> (r: GamePly)
        requires
            self.0 < i32::MAX,
        ensures
            r.0 == self.0 + 1,
    {
        GamePly(self.0 + 1)
    }

    /// One ply earlier.
    #[inline(always)]
    pub fn prev(self) -> (r: GamePly)
        requires
            self.0 > i32::MIN,
        ensures
            r.0 == self.0 - 1,
    {
        GamePly(self.0 - 1)
    }
}

/// A Zobrist hash key.
pub type Key = u64;

/// Node kinds of a search.
#[derive(Clone, Copy, Debug, PartialEq, Eq, Structural)]
pub enum NodeType {
    PV,
    NonPV,
    Root,
}

/// The bound kind of a stored score.
#[derive(Clone, Copy, Debug, PartialEq, Eq, Structural)]
pub enum Bound {
    NoBound,
    Upper,
    Lower,
    Exact,
}

impl Bound {
    /// The two-bit code of this bound.
    pub open spec fn code(self) -> int {
        match self {
            Bound::NoBound => 0,
            Bound::Upper => 1,
            Bound::Lower => 2,
            Bound::Exact => 3,
        }
    }

    /// Read a bound back from its two bits.
    #[inline(always)]
    pub fn from_raw(v: u8) -> (r: Bound)
        requires
            v < 4,
        ensures
            r.code() == v,
    {
        match v {
            0 => Bound::NoBound,
            1 => Bound::Upper,
            2 => Bound::Lower,
            _ => Bound::Exact,
        }
    }
}

} // verus!
