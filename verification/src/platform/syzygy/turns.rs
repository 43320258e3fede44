//! One ply is enough: where a table has the other side to move only, it has every position one
//! quiet move on.

use vstd::prelude::*;
use crate::board::movegen::Node;
use crate::board::perft;
use crate::board::placement;
use crate::board::position;
use crate::board::tally;
use crate::board::transition;
use crate::board::types;
use crate::board::types::{Color, Move, MoveType, Piece, PieceType};
use crate::platform::syzygy::probe;
use crate::platform::syzygy::probe::{ProbeState, Wdl};
use crate::platform::syzygy::registry;
use crate::platform::syzygy::registry::TableRegistry;
use crate::platform::syzygy::table::{Loaded, TbTable};

verus! {

/// The pawns of both sides stand on the same squares.
pub open spec fn same_pawns(a: Seq<Piece>, b: Seq<Piece>) -> bool {
    forall|t: int|
        0 <= t < 64 ==> {
            &&& (#[trigger] a[t] == Piece::W_PAWN) == (b[t] == Piece::W_PAWN)
            &&& (a[t] == Piece::B_PAWN) == (b[t] == Piece::B_PAWN)
        }
}

/// A move that does not reset the clock moves no pawn and keeps every count.
proof fn lemma_quiet_after(b: Seq<Piece>, us: Color, m: Move, pc: Piece)
    requires
        placement::clean(b),
        transition::can_make(b, us, m),
        b[m.dst()] == Piece::NONE || m.kind() == MoveType::Castling,
        m.kind() != MoveType::EnPassant,
        b[m.src()].kind() != PieceType::Pawn,
    ensures
        tally::count_of(transition::board_after(b, us, m), pc) == tally::count_of(b, pc),
        same_pawns(b, transition::board_after(b, us, m)),
{
    broadcast use {types::Square::lemma_idx, types::Square::lemma_at};

    let from = m.src();
    let to = m.dst();
    if m.kind() == MoveType::Castling {
        let kt = position::castle_king_to(from, to > from);
        let rt = position::castle_rook_to(from, to > from);
        let b1 = b.update(from, Piece::NONE);
        let b2 = b1.update(to, Piece::NONE);
        let b3 = b2.update(kt, b[from]);
        tally::lemma_count_update(b, pc, from, Piece::NONE, 64);
        tally::lemma_count_update(b1, pc, to, Piece::NONE, 64);
        tally::lemma_count_update(b2, pc, kt, b[from], 64);
        tally::lemma_count_update(b3, pc, rt, b[to], 64);
        assert(b[from].kind() == PieceType::King);
        assert(b[to].kind() == PieceType::Rook);
    } else {
        let b1 = b.update(to, Piece::NONE);
        let b2 = b1.update(from, Piece::NONE);
        tally::lemma_count_update(b, pc, to, Piece::NONE, 64);
        tally::lemma_count_update(b1, pc, from, Piece::NONE, 64);
        tally::lemma_count_update(b2, pc, to, b[from], 64);
    }
}

/// The material key is a matter of the counts.
proof fn lemma_material(a: Seq<Piece>, b: Seq<Piece>, n: int)
    requires
        forall|pc: Piece| #[trigger] tally::count_of(a, pc) == tally::count_of(b, pc),
    ensures
        tally::material_upto(a, n) == tally::material_upto(b, n),
    decreases n,
{
    if n > 0 {
        lemma_material(a, b, n - 1);
        assert(tally::count_of(a, tally::coded(n - 1)) == tally::count_of(b, tally::coded(n - 1)));
    }
}

/// The pawns that a table is split by are the same on boards with the same pawns.
proof fn lemma_leads(a: Seq<Piece>, b: Seq<Piece>, m: bool, lead: Piece, n: int)
    requires
        same_pawns(a, b),
        lead == Piece::W_PAWN || lead == Piece::B_PAWN,
        n <= 64,
    ensures
        probe::men_upto(a, m, lead, true, n) == probe::men_upto(b, m, lead, true, n),
    decreases n,
{
    if n > 0 {
        lemma_leads(a, b, m, lead, n - 1);
        reveal(probe::man_at);
        assert((a[n - 1] == Piece::W_PAWN) == (b[n - 1] == Piece::W_PAWN));
        assert((a[n - 1] == Piece::B_PAWN) == (b[n - 1] == Piece::B_PAWN));
    }
}

/// A table that answers a board with one side to move by asking for the other side does not ask
/// again when the other side is to move, with the same pawns and the same material.
proof fn lemma_one_side(
    t: &TbTable,
    l: &Loaded,
    a: Seq<Piece>,
    b: Seq<Piece>,
    stm: Color,
    first: Wdl,
    second: Wdl,
)
    requires
        same_pawns(a, b),
        tally::material_of(a) == tally::material_of(b),
        t.key == t.key2 ==> !t.has_pawns,
        t.answer(l, a, stm, first) == Err::<int, ProbeState>(ProbeState::ChangeStm),
    ensures
        t.answer(l, b, stm.opp(), second) != Err::<int, ProbeState>(ProbeState::ChangeStm),
{
    let m = t.mirrors(a, stm);
    let lead = t.lead_piece(l, m);
    let side = t.seen_side(a, stm);
    assert(t.key != t.key2);
    assert(t.mirrors(b, stm.opp()) == m);
    assert(t.seen_side(b, stm.opp()) == 1 - side);
    if t.has_pawns {
        lemma_leads(a, b, m, lead, 64);
        assert(probe::leads(a, m, lead) == probe::leads(b, m, lead));
    }
    assert(t.lead_file(probe::leads(a, m, lead)) == t.lead_file(probe::leads(b, m, lead)));
    let file = t.lead_file(probe::leads(a, m, lead));
    assert(t.side_count() == 1);
    assert(t.part_of(side, file) == t.part_of(1 - side, file));
}

/// Trying the moves once is enough: where a table asks for the other side to move, it does not
/// ask again after a move that does not reset the clock, so the distance there is the same
/// whether or not the moves may be tried a second time. A table with pawns for the same material on both sides is left out: it
/// is seen from the side to move, so that it can ask every time.
pub proof fn law_one_ply_is_enough(r: &TableRegistry, n: Node, m: Move)
    requires
        n.regular(),
        n.legal_moves().contains(m),
        !registry::resets(n, m),
        r.plain(n) matches Ok(Err(_)),
        r.slot_for(tally::material_of(n.b)) matches Some(i) ==> (r.slots()[i].dtz matches Some(t)
            ==> (t.key == t.key2 ==> !t.has_pawns)),
    ensures
        r.distance(n.next(m), true) == r.distance(n.next(m), false),
{
    let a = n.b;
    let b = n.next(m).b;
    perft::law_play_stays_regular(n, m);
    assert forall|pc: Piece| #[trigger] tally::count_of(a, pc) == tally::count_of(b, pc) by {
        lemma_quiet_after(a, n.stm, m, pc);
    }
    lemma_quiet_after(a, n.stm, m, Piece::NONE);
    lemma_material(a, b, 16);
    reveal(TableRegistry::plain);
    if r.plain(n.next(m)) matches Ok(Err(_)) {
        let first = r.verdict(n, true)->Ok_0.0;
        let second = r.verdict(n.next(m), true)->Ok_0.0;
        let i = r.slot_for(tally::material_of(a))->0;
        let slot = r.slots()[i];
        let t = slot.dtz->0;
        let l = slot.dtz_file->0;
        lemma_one_side(&t, &l, a, b, n.stm, first, second);
    }
    reveal(TableRegistry::distance);
}

} // verus!
