//! Games: the positions that legal moves lead to.

use vstd::prelude::*;
use crate::board::attacks;
use crate::board::fen;
use crate::board::legal_moves;
use crate::board::legality;
use crate::board::movegen::Node;
use crate::board::notation;
use crate::board::perft;
use crate::board::placement;
use crate::board::position::Position;
use crate::board::records;
use crate::board::soundness;
use crate::board::startpos;
use crate::board::state;
use crate::board::tally;
use crate::board::transition;
use crate::board::types::{CastlingRights, Color, Move, Piece, PieceType, Square};

verus! {

/// In standard chess a king with a right stands on the e-file.
pub open spec fn kings_at_home(n: Node) -> bool {
    !n.chess960 ==> forall|c: Color, ks: bool|
        n.rights.has(#[trigger] CastlingRights::wing(c, ks)) ==> placement::king(n.b, c) % 8 == 4
}

impl Position {
    /// The position is one of a game: it could have come about by play, and its ply belongs to the
    /// side to move.
    pub open spec fn orderly(&self) -> bool {
        &&& self.wf()
        &&& self.node().regular()
        &&& records::in_turn(self.game_ply as int, self.side_to_move)
    }

    /// The derived fields are what the placement makes them.
    pub open spec fn consistent(&self) -> bool {
        &&& self.top().tallied(self.board@)
        &&& self.top().keyed(self.board@, self.side_to_move)
        &&& self.top().checked(self.board@, self.side_to_move)
    }
}

/// The positions of a line of play: each follows from the one before by a legal move.
pub open spec fn is_game(line: Seq<Position>, moves: Seq<Move>) -> bool {
    &&& line.len() == moves.len() + 1
    &&& forall|i: int|
        0 <= i < moves.len() ==> follows(line[i], line[i + 1], #[trigger] moves[i])
}

/// The legal move `m` leads from `pre` to `post`.
pub open spec fn follows(pre: Position, post: Position, m: Move) -> bool {
    &&& pre.node().legal_moves().contains(m)
    &&& post.wf()
    &&& pre.made(&post, m, legality::checks_king(pre.board@, pre.side_to_move, m))
}

/// A legal move leads from a position of a game to a position of a game, and leaves the castling
/// kings at home.
pub proof fn law_play_stays_orderly(pre: Position, post: Position, m: Move)
    requires
        pre.orderly(),
        follows(pre, post, m),
    ensures
        post.orderly(),
        post.node() == pre.node().next(m),
        kings_at_home(pre.node()) ==> kings_at_home(post.node()),
{
    let n = pre.node();
    let b = pre.board@;
    let us = pre.side_to_move;
    perft::law_play_stays_regular(n, m);
    perft::lemma_checkers_after(n, m, post.top().checkers);
    transition::lemma_after(b, us, m);
    let left = transition::rights_after(n.rights, n.castling, m);
    if !n.chess960 && kings_at_home(n) {
        assert forall|c: Color, ks: bool|
            left.has(#[trigger] CastlingRights::wing(c, ks)) implies placement::king(
            post.board@,
            c,
        ) % 8 == 4 by {
            let cr = CastlingRights::wing(c, ks);
            assert(n.rights.has(cr));
            assert(n.castling.right_wf(b, c, ks));
            let k = placement::king(b, c);
            placement::lemma_king(b, c);
            assert(m.src() != k && m.dst() != k);
            assert(transition::capture_square(us, m) != k);
            assert(post.board@[k] == b[k]);
            placement::lemma_king(post.board@, c);
        }
    }
}

/// Every position of a game is orderly, its derived fields are what the placement makes them, and
/// castling kings that begin at home stay there.
pub proof fn law_games_stay_consistent(line: Seq<Position>, moves: Seq<Move>, i: int)
    requires
        is_game(line, moves),
        line[0].orderly(),
        0 <= i < line.len(),
    ensures
        line[i].orderly(),
        line[i].consistent(),
        kings_at_home(line[0].node()) ==> kings_at_home(line[i].node()),
    decreases i,
{
    if i > 0 {
        law_games_stay_consistent(line, moves, i - 1);
        assert(follows(line[i - 1], line[i], moves[i - 1]));
        law_play_stays_orderly(line[i - 1], line[i], moves[i - 1]);
    }
    lemma_consistent(line[i]);
}

proof fn lemma_consistent(p: Position)
    requires
        p.orderly(),
    ensures
        p.consistent(),
{
    let n = p.node();
    assert(n.checkers_exact());
    assert forall|s: int| #[trigger] p.top().checkers.has(s) == state::checks(
        n.b,
        n.stm.opp(),
        placement::king(n.b, n.stm),
        s,
    ) by {
        assert(n.checkers.has(s) == state::checks(
            n.b,
            n.stm.opp(),
            placement::king(n.b, n.stm),
            s,
        ));
    }
}

/// The castling letters of an orderly position find their rooks.
proof fn lemma_nameable(p: Position)
    requires
        p.orderly(),
    ensures
        records::rooks_nameable(
            p.board@,
            p.top().castling_rights,
            p.castling.rook_square@,
            p.chess960,
        ),
        records::rooks_level(p.board@, p.top().castling_rights, p.castling.rook_square@),
        records::flippable(p),
        kings_at_home(p.node()) ==> notation::king_on_its_file(p.node()) || p.chess960,
{
    broadcast use Square::lemma_idx;

    let n = p.node();
    assert forall|c: Color, ks: bool| #![trigger CastlingRights::wing(c, ks)]
        n.rights.has(CastlingRights::wing(c, ks)) implies {
        let r = n.castling.rook_square@[CastlingRights::wing(c, ks).nibble()].byte();
        &&& r / 8 == placement::king(n.b, c) / 8
        &&& !n.chess960 ==> fen::outer_rook(n.b, c, ks, r)
    } by {
        let cr = CastlingRights::wing(c, ks);
        assert(n.castling.right_wf(n.b, c, ks));
        assert(soundness::rook_at_home(n, c, ks));
        let r = n.castling.rook_square@[cr.nibble()]->At_0.idx();
        assert(n.castling.rook_square@[cr.nibble()].byte() == r);
        placement::lemma_king(n.b, c);
        if !n.chess960 {
            assert(fen::home_rook(n.b, c, r));
        }
    }
}

/// Every position of a game reads back from its record.
pub proof fn law_games_read_back(line: Seq<Position>, moves: Seq<Move>, i: int)
    requires
        is_game(line, moves),
        line[0].orderly(),
        0 <= i < line.len(),
    ensures
        fen::read_fen(vstd::utf8::encode_utf8(line[i].record_text(false))) matches Ok(su)
            && records::restores(su, line[i]),
{
    law_games_stay_consistent(line, moves, i);
    lemma_nameable(line[i]);
    records::law_records_read_back(line[i]);
}

/// Every position of a game can be flipped, and flipped back.
pub proof fn law_games_can_be_flipped(line: Seq<Position>, moves: Seq<Move>, i: int)
    requires
        is_game(line, moves),
        line[0].orderly(),
        0 <= i < line.len(),
    ensures
        records::flippable(line[i]),
        fen::read_fen(vstd::utf8::encode_utf8(line[i].record_text(true))) matches Ok(su)
            && records::mirrors(su, line[i]),
{
    law_games_stay_consistent(line, moves, i);
    lemma_nameable(line[i]);
    records::law_flipping_mirrors_the_position(line[i]);
}

/// Every legal move of a position of a game reads back from its notation, when the castling kings
/// begin at home.
pub proof fn law_moves_of_games_read_back(line: Seq<Position>, moves: Seq<Move>, i: int, m: Move)
    requires
        is_game(line, moves),
        line[0].orderly(),
        kings_at_home(line[0].node()),
        0 <= i < line.len(),
        line[i].node().legal_moves().contains(m),
    ensures
        legal_moves::find_named(
            line[i].node().legal_moves(),
            line[i].chess960,
            legal_moves::uci_text(line[i].chess960, m),
            0,
        ) == Some(m),
{
    law_games_stay_consistent(line, moves, i);
    lemma_nameable(line[i]);
    notation::law_move_notation_reads_back(line[i].node(), m);
}

/// A record that is accepted sets up a position of a game, as long as its castling
/// rooks are at home and its promotions have room.
pub proof fn law_records_begin_games(p: Position, s: Seq<u8>, chess960: bool)
    requires
        fen::read_fen(s) matches Ok(su) && fen::is_set_up(&p, su, chess960),
        soundness::spacious(p.board@),
        forall|c: Color, ks: bool|
            p.node().rights.has(#[trigger] CastlingRights::wing(c, ks))
                ==> soundness::rook_at_home(p.node(), c, ks),
    ensures
        p.orderly(),
{
}

/// Nothing of White's attacks the black king at the start.
proof fn lemma_start_safe(s: int)
    requires
        0 <= s < 64,
        startpos::start_board()[s].is_real(),
        startpos::start_board()[s].side() == Color::White,
    ensures
        !attacks::hits(
            Color::White,
            startpos::start_board()[s].kind(),
            placement::occ(startpos::start_board()),
            s,
            60,
        ),
{
    assert(s / 8 == 0 || s / 8 == 1);
}

/// At the start every promotion has room.
proof fn lemma_start_spacious()
    ensures
        soundness::spacious(startpos::start_board()),
{
    let b = startpos::start_board();
    assert forall|c: Color, pt: PieceType| 2 <= pt.idx() <= 5 implies #[trigger] tally::count_of(
        b,
        Piece::of(c, pt),
    ) + tally::count_of(b, Piece::of(c, PieceType::Pawn)) <= 56 by {
        let o = Piece::of(c, pt);
        let w = Piece::of(c, PieceType::Pawn);
        match c {
            Color::White => {
                startpos::lemma_count_skip(b, o, 16, 64);
                startpos::lemma_count_skip(b, w, 16, 64);
                startpos::lemma_count_tail(b, o, 0, 16);
                startpos::lemma_count_tail(b, w, 0, 16);
            },
            Color::Black => {
                startpos::lemma_count_skip(b, o, 0, 48);
                startpos::lemma_count_skip(b, w, 0, 48);
                startpos::lemma_count_tail(b, o, 48, 64);
                startpos::lemma_count_tail(b, w, 48, 64);
            },
        }
    }
}

/// The start of a game is orderly, with its kings at home.
pub proof fn law_the_start_is_orderly(p: Position)
    requires
        fen::is_set_up(&p, startpos::start_setup(), false),
    ensures
        p.orderly(),
        kings_at_home(p.node()),
{
    broadcast use {Square::lemma_idx, Square::lemma_at};

    let b = startpos::start_board();
    let n = p.node();
    startpos::lemma_start();
    lemma_start_spacious();
    assert(n.enemy_safe()) by {
        if placement::attacked(b, placement::occ(b), Color::White, 60) {
            let s = choose|s: int|
                #[trigger] placement::attacks_through(b, placement::occ(b), s, 60) && b[s].side()
                    == Color::White;
            lemma_start_safe(s);
        }
    }
    assert forall|c: Color, ks: bool|
        n.rights.has(#[trigger] CastlingRights::wing(c, ks)) implies soundness::rook_at_home(
        n,
        c,
        ks,
    ) by {}
}

} // verus!
