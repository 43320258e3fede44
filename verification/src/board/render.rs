//! Diagrams of positions and of sets of squares.

use vstd::prelude::*;
use crate::board::bitboard::Bitboard;
use crate::board::position::Position;
use crate::board::types::{File, Key, Piece, Rank, Square};

verus! {

/// The line between two ranks.
pub open spec fn rule_line() -> Seq<char> {
    " +---+---+---+---+---+---+---+---+\n"@
}

/// The first `n` squares of a rank, each behind a bar.
pub open spec fn cells(b: Seq<Piece>, rank: int, n: int) -> Seq<char>
    decreases n,
{
    if n <= 0 {
        Seq::empty()
    } else {
        cells(b, rank, n - 1) + " | "@ + seq![b[8 * rank + n - 1].letter() as char]
    }
}

/// A rank with its number, and the line below it.
pub open spec fn rank_lines(b: Seq<Piece>, rank: int) -> Seq<char> {
    cells(b, rank, 8) + " | "@ + seq![(49 + rank) as char, '\n'] + rule_line()
}

/// The first `n` ranks from the eighth down.
pub open spec fn ranks(b: Seq<Piece>, n: int) -> Seq<char>
    decreases n,
{
    if n <= 0 {
        Seq::empty()
    } else {
        ranks(b, n - 1) + rank_lines(b, 8 - n)
    }
}

/// The character of a hexadecimal digit, in upper case.
pub open spec fn hex_digit(d: int) -> char {
    if d < 10 {
        (48 + d) as char
    } else {
        (55 + d) as char
    }
}

/// The last `n` hexadecimal digits of a number.
pub open spec fn hex(v: int, n: int) -> Seq<char>
    decreases n,
{
    if n <= 0 {
        Seq::empty()
    } else {
        hex(v / 16, n - 1).push(hex_digit(v % 16))
    }
}

impl Position {
    /// The diagram, the record and the key.
    pub open spec fn diagram(&self) -> Seq<char> {
        "\n"@ + rule_line() + ranks(self.board@, 8) + "   a   b   c   d   e   f   g   h\n\nFen: "@
            + self.record_text(false) + "\nKey: "@ + hex(self.top().key as int, 16)
    }

    /// The board as a diagram, with the record and the key below it.
    pub fn to_string(&self) -> (r: String)
        requires
            self.sound(),
            self.game_ply >= 0,
        ensures
            r@ == self.diagram(),
    {
        let mut s = "\n".to_string();
        s.append(" +---+---+---+---+---+---+---+---+\n");
        let mut n: usize = 0;
        assert(s@ =~= "\n"@ + rule_line() + ranks(self.board@, 0));
        while n < 8
            invariant
                n <= 8,
                self.sound(),
                s@ == "\n"@ + rule_line() + ranks(self.board@, n as int),
            decreases 8 - n,
        {
            let ghost before = s@;
            self.push_rank_lines(&mut s, 7 - n);
            n += 1;
            assert(s@ =~= "\n"@ + rule_line() + ranks(self.board@, n as int));
        }
        s.append("   a   b   c   d   e   f   g   h\n\nFen: ");
        s.append(self.fen().as_str());
        s.append("\nKey: ");
        push_hex(&mut s, self.key(), 16);
        s
    }

    /// Append a rank with its number, and the line below it.
    fn push_rank_lines(&self, s: &mut String, rank: usize)
        requires
            rank < 8,
        ensures
            final(s)@ == old(s)@ + rank_lines(self.board@, rank as int),
    {
        let ghost start = s@;
        let mut file: usize = 0;
        assert(s@ =~= start + cells(self.board@, rank as int, 0));
        while file < 8
            invariant
                file <= 8,
                rank < 8,
                s@ == start + cells(self.board@, rank as int, file as int),
            decreases 8 - file,
        {
            let sq = Square::make(File::new(file), Rank::new(rank));
            s.append(" | ");
            s.push(self.piece_on(sq).to_char() as char);
            file += 1;
            assert(s@ =~= start + cells(self.board@, rank as int, file as int));
        }
        s.append(" | ");
        s.push((49u8 + rank as u8) as char);
        s.push('\n');
        s.append(" +---+---+---+---+---+---+---+---+\n");
        assert(s@ =~= start + rank_lines(self.board@, rank as int));
    }
}

/// Append the last `n` hexadecimal digits of a key.
fn push_hex(s: &mut String, v: Key, n: usize)
    ensures
        final(s)@ == old(s)@ + hex(v as int, n as int),
    decreases n,
{
    let ghost start = s@;
    if n > 0 {
        push_hex(s, v / 16, n - 1);
        let d: u8 = (v % 16) as u8;
        if d < 10 {
            s.push((48 + d) as char);
        } else {
            s.push((55 + d) as char);
        }
    }
    assert(s@ =~= start + hex(v as int, n as int));
}

/// The line between two ranks of a set of squares.
pub open spec fn edge_line() -> Seq<char> {
    "+---+---+---+---+---+---+---+---+\n"@
}

/// The first `n` squares of a rank, each behind a bar and marked where the set holds it.
pub open spec fn marks(set: Bitboard, rank: int, n: int) -> Seq<char>
    decreases n,
{
    if n <= 0 {
        Seq::empty()
    } else {
        marks(set, rank, n - 1) + "| "@ + seq![
            if set.has(8 * rank + n - 1) {
                'X'
            } else {
                ' '
            },
            ' ',
        ]
    }
}

/// A rank of a set with its number, and the line below it.
pub open spec fn marked_lines(set: Bitboard, rank: int) -> Seq<char> {
    marks(set, rank, 8) + "| "@ + seq![(49 + rank) as char, '\n'] + edge_line()
}

/// The first `n` ranks of a set from the eighth down.
pub open spec fn marked_ranks(set: Bitboard, n: int) -> Seq<char>
    decreases n,
{
    if n <= 0 {
        Seq::empty()
    } else {
        marked_ranks(set, n - 1) + marked_lines(set, 8 - n)
    }
}

impl Bitboard {
    /// The set as a grid.
    pub open spec fn grid(self) -> Seq<char> {
        edge_line() + marked_ranks(self, 8) + "  a   b   c   d   e   f   g   h\n"@
    }

    /// The set as a grid, the eighth rank at the top.
    pub fn to_string(self) -> (r: String)
        ensures
            r@ == self.grid(),
    {
        let mut s = "+---+---+---+---+---+---+---+---+\n".to_string();
        let mut n: usize = 0;
        assert(s@ =~= edge_line() + marked_ranks(self, 0));
        while n < 8
            invariant
                n <= 8,
                s@ == edge_line() + marked_ranks(self, n as int),
            decreases 8 - n,
        {
            self.push_marked_lines(&mut s, 7 - n);
            n += 1;
            assert(s@ =~= edge_line() + marked_ranks(self, n as int));
        }
        s.append("  a   b   c   d   e   f   g   h\n");
        s
    }

    /// Append a rank with its number, and the line below it.
    fn push_marked_lines(self, s: &mut String, rank: usize)
        requires
            rank < 8,
        ensures
            final(s)@ == old(s)@ + marked_lines(self, rank as int),
    {
        let ghost start = s@;
        let mut file: usize = 0;
        assert(s@ =~= start + marks(self, rank as int, 0));
        while file < 8
            invariant
                file <= 8,
                rank < 8,
                s@ == start + marks(self, rank as int, file as int),
            decreases 8 - file,
        {
            let sq = Square::make(File::new(file), Rank::new(rank));
            s.append("| ");
            if self.contains(sq) {
                s.push('X');
            } else {
                s.push(' ');
            }
            s.push(' ');
            file += 1;
            assert(s@ =~= start + marks(self, rank as int, file as int));
        }
        s.append("| ");
        s.push((49u8 + rank as u8) as char);
        s.push('\n');
        s.append("+---+---+---+---+---+---+---+---+\n");
        assert(s@ =~= start + marked_lines(self, rank as int));
    }
}

} // verus!
