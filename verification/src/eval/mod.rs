//! Position evaluation: a network when one is loaded, a classical evaluation otherwise.

use vstd::prelude::*;
use crate::board::bitboard::{Bitboard, LIGHT_SQUARES};
use crate::board::bits;
use crate::board::movegen;
use crate::board::position::Position;
use crate::board::tally;
use crate::board::types::{
    Color, Piece, PieceType, Ply, Value, VALUE_TB_LOSS_IN_MAX_PLY, VALUE_TB_WIN_IN_MAX_PLY,
};
use crate::board::types;
use crate::eval::nnue::layers;
use crate::eval::nnue::network::Network;
use crate::eval::nnue::network;
use crate::eval::nnue::transformer::{EvalScratch, PLY_SLOTS};

pub mod balances;
pub mod classical;
pub mod merits;
pub mod nnue;
pub mod squares;
pub mod symmetry;

verus! {

/// The distance between two scores.
pub open spec fn gap(a: int, b: int) -> int {
    if a < b {
        b - a
    } else {
        a - b
    }
}

/// The network's two scores blended with the optimism of the search. The further apart the
/// scores are, the more the optimism counts and the less the network.
pub open spec fn blended(psqt: int, positional: int, optimism: int, material: int) -> int {
    let complexity = gap(psqt, positional);
    let hope = optimism + types::trunc_div(optimism * complexity, 476);
    let net = psqt + positional;
    let score = net - types::trunc_div(net * complexity, 18236);
    layers::wrap32(
        types::trunc_div(score * (77871 + material) + hope * (7191 + material), 77871),
    )
}

/// The material that the blend is scaled by.
pub open spec fn material_of(b: Seq<Piece>) -> int {
    534 * (tally::count_of(b, Piece::W_PAWN) + tally::count_of(b, Piece::B_PAWN))
        + tally::worth_of(b, Color::White) + tally::worth_of(b, Color::Black)
}

/// A score damped as the fifty-move counter runs, and kept out of the tablebase range.
pub open spec fn damped(v: int, rule50: int) -> int {
    let d = v - types::trunc_div(v * rule50, 199);
    if d < VALUE_TB_LOSS_IN_MAX_PLY + 1 {
        VALUE_TB_LOSS_IN_MAX_PLY + 1
    } else if d > VALUE_TB_WIN_IN_MAX_PLY - 1 {
        VALUE_TB_WIN_IN_MAX_PLY - 1
    } else {
        d
    }
}

/// `a / b` rounded toward zero.
fn quotient(a: i128, b: i128) -> (r: i128)
    requires
        0 < b,
        -0x1_0000_0000_0000_0000_0000_0000 <= a <= 0x1_0000_0000_0000_0000_0000_0000,
    ensures
        r == types::trunc_div(a as int, b as int),
        a >= 0 ==> 0 <= r <= a,
        a < 0 ==> a <= r <= 0,
{
    if a < 0 {
        let n: i128 = -a;
        let q: i128 = n / b;
        assert(0 <= q <= n) by (nonlinear_arith)
            requires
                n >= 0,
                b >= 1,
                q == n / b,
        ;
        -q
    } else {
        let q: i128 = a / b;
        assert(0 <= q <= a) by (nonlinear_arith)
            requires
                a >= 0,
                b >= 1,
                q == a / b,
        ;
        q
    }
}

/// Blend the network's two scores with the optimism of the search.
pub fn blend(psqt: Value, positional: Value, optimism: Value, material: i32) -> (r: Value)
    requires
        0 <= material <= 1_000_000,
    ensures
        r.0 == blended(psqt.0 as int, positional.0 as int, optimism.0 as int, material as int),
{
    let p: i128 = psqt.0 as i128;
    let q: i128 = positional.0 as i128;
    let o: i128 = optimism.0 as i128;
    let m: i128 = material as i128;
    let complexity: i128 = if p < q {
        q - p
    } else {
        p - q
    };
    let net: i128 = p + q;
    assert(-0x8000_0000_0000_0000 <= o * complexity <= 0x8000_0000_0000_0000) by (nonlinear_arith)
        requires
            -0x8000_0000 <= o <= 0x8000_0000,
            0 <= complexity <= 0x1_0000_0000,
    ;
    assert(-0x1_0000_0000_0000_0000 <= net * complexity <= 0x1_0000_0000_0000_0000)
        by (nonlinear_arith)
        requires
            -0x1_0000_0000 <= net <= 0x1_0000_0000,
            0 <= complexity <= 0x1_0000_0000,
    ;
    let hope: i128 = o + quotient(o * complexity, 476);
    let score: i128 = net - quotient(net * complexity, 18236);
    assert(-0x400_0000_0000_0000_0000_0000 <= score * (77871 + m) <= 0x400_0000_0000_0000_0000_0000)
        by (nonlinear_arith)
        requires
            -0x2_0000_0000_0000_0000 <= score <= 0x2_0000_0000_0000_0000,
            0 <= m <= 1_000_000,
    ;
    assert(-0x400_0000_0000_0000_0000_0000 <= hope * (7191 + m) <= 0x400_0000_0000_0000_0000_0000)
        by (nonlinear_arith)
        requires
            -0x2_0000_0000_0000_0000 <= hope <= 0x2_0000_0000_0000_0000,
            0 <= m <= 1_000_000,
    ;
    let x: i128 = quotient(score * (77871 + m) + hope * (7191 + m), 77871);
    let lifted: i128 = x + 0x8000_0000 + 0x10_0000_0000_0000_0000_0000_0000;
    proof {
        assert((x + 0x8000_0000 + 0x10_0000_0000_0000_0000_0000_0000) % 0x1_0000_0000 == (x
            + 0x8000_0000) % 0x1_0000_0000);
    }
    Value((lifted % 0x1_0000_0000 - 0x8000_0000) as i32)
}

/// Damp a score as the fifty-move counter runs, and keep it out of the tablebase range.
pub fn damp(v: Value, rule50: i32) -> (r: Value)
    ensures
        r.0 == damped(v.0 as int, rule50 as int),
{
    let x: i128 = v.0 as i128;
    let n: i128 = rule50 as i128;
    assert(-0x8000_0000_0000_0000 <= x * n <= 0x8000_0000_0000_0000) by (nonlinear_arith)
        requires
            -0x8000_0000 <= x <= 0x8000_0000,
            -0x8000_0000 <= n <= 0x8000_0000,
    ;
    let d: i128 = x - quotient(x * n, 199);
    if d < VALUE_TB_LOSS_IN_MAX_PLY as i128 + 1 {
        Value(VALUE_TB_LOSS_IN_MAX_PLY + 1)
    } else if d > VALUE_TB_WIN_IN_MAX_PLY as i128 - 1 {
        Value(VALUE_TB_WIN_IN_MAX_PLY - 1)
    } else {
        Value(d as i32)
    }
}

/// What the network makes of a position before damping.
pub open spec fn network_score(net: &Network, pos: &Position, optimism: int) -> int {
    let k = network::bucket_of(pos.board@);
    blended(
        net.psqt_in(pos, k),
        net.positional_in(pos, k),
        optimism,
        material_of(pos.board@),
    )
}

/// The static evaluation of a position at `ply` of the line that the scratch follows, as the
/// side to move sees it.
///
/// With no network this is the classical evaluation, which uses neither the scratch nor the
/// optimism. With one, the result is the network's provided that the scratch's line leads here.
pub fn evaluate_at(
    pos: &Position,
    network: Option<&Network>,
    scratch: &mut EvalScratch,
    optimism: Value,
    ply: Ply,
) -> (r: Value)
    requires
        pos.wf(),
        0 <= ply.0 < PLY_SLOTS,
        old(scratch).wf(),
        network matches Some(net) ==> net.wf() && network::pieces(pos.board@) <= 32,
    ensures
        final(scratch).wf(),
        VALUE_TB_LOSS_IN_MAX_PLY < r.0 < VALUE_TB_WIN_IN_MAX_PLY,
        (match network {
            None => {
                &&& r.0 == damped(
                    classical::score_of(pos.board@, pos.side_to_move),
                    pos.top().rule50 as int,
                )
                &&& *final(scratch) == *old(scratch)
            },
            Some(net) => old(scratch).fits(&net.transformer) && old(scratch).on_line(
                pos.board@,
                pos.top().key,
                ply.0 as int,
            ) ==> {
                &&& r.0 == damped(
                    network_score(net, pos, optimism.0 as int),
                    pos.top().rule50 as int,
                )
                &&& final(scratch).fits(&net.transformer)
                &&& final(scratch).on_line(pos.board@, pos.top().key, ply.0 as int)
            },
        }),
        network is Some && ply.0 == 0 ==> final(scratch).open_to_others(pos.top().key),
{
    let v = match network {
        Some(net) => {
            let out = net.evaluate(pos, ply, scratch);
            let pawns: i32 = pos.count_both(PieceType::Pawn);
            let worth = pos.non_pawn_material_total();
            proof {
                tally::lemma_count_bounds(pos.board@, Piece::W_PAWN, 64);
                tally::lemma_count_bounds(pos.board@, Piece::B_PAWN, 64);
            }
            blend(out.psqt, out.positional, optimism, 534 * pawns + worth.0)
        },
        None => classical::evaluate(pos),
    };
    damp(v, pos.rule50_count())
}

/// The static evaluation of a position on its own, as the side to move sees it.
pub fn evaluate(
    pos: &Position,
    network: Option<&Network>,
    scratch: &mut EvalScratch,
    optimism: Value,
) -> (r: Value)
    requires
        pos.wf(),
        old(scratch).wf(),
        network matches Some(net) ==> net.wf() && network::pieces(pos.board@) <= 32,
    ensures
        final(scratch).wf(),
        VALUE_TB_LOSS_IN_MAX_PLY < r.0 < VALUE_TB_WIN_IN_MAX_PLY,
        (match network {
            None => {
                &&& r.0 == damped(
                    classical::score_of(pos.board@, pos.side_to_move),
                    pos.top().rule50 as int,
                )
                &&& *final(scratch) == *old(scratch)
            },
            Some(net) => old(scratch).fits(&net.transformer) && old(scratch).on_line(
                pos.board@,
                pos.top().key,
                0,
            ) ==> {
                &&& r.0 == damped(
                    network_score(net, pos, optimism.0 as int),
                    pos.top().rule50 as int,
                )
                &&& final(scratch).fits(&net.transformer)
                &&& final(scratch).on_line(pos.board@, pos.top().key, 0)
            },
        }),
        network is Some ==> final(scratch).open_to_others(pos.top().key),
{
    evaluate_at(pos, network, scratch, optimism, Ply::root())
}

// ---------------------------------------------------------------------------
// Dead draws
// ---------------------------------------------------------------------------

/// A light square.
pub open spec fn is_light(t: int) -> bool {
    (t % 8 + t / 8) % 2 == 1
}

/// A knight or a bishop.
pub open spec fn is_minor(pc: Piece) -> bool {
    pc.kind() == PieceType::Knight || pc.kind() == PieceType::Bishop
}

/// Neither side can force mate: the kings alone, a single minor piece, or two bishops on
/// squares of one colour.
pub open spec fn dead_draw(b: Seq<Piece>) -> bool {
    let minors = movegen::squares(|t: int| is_minor(b[t])).len();
    let bishops = movegen::squares(|t: int| b[t].kind() == PieceType::Bishop).len();
    let light = movegen::squares(|t: int| b[t].kind() == PieceType::Bishop && is_light(t)).len();
    &&& forall|t: int|
        0 <= t < 64 ==> (#[trigger] b[t]).kind() != PieceType::Pawn && b[t].kind()
            != PieceType::Rook && b[t].kind() != PieceType::Queen
    &&& minors <= 1 || (minors == 2 && bishops == 2 && light != 1)
}

proof fn lemma_light(t: int)
    requires
        0 <= t < 64,
    ensures
        bits::bit(LIGHT_SQUARES, t) == is_light(t),
{
    reveal(bits::bit);
    let i = t as u64;
    assert(((0x55AA_55AA_55AA_55AAu64 >> i) & 1 == 1) == ((i % 8 + i / 8) % 2 == 1)) by (bit_vector)
        requires
            i < 64,
    ;
}

/// Whether neither side can force mate, whatever an evaluation says.
pub fn is_material_draw(pos: &Position) -> (r: bool)
    requires
        pos.sound(),
    ensures
        r == dead_draw(pos.board@),
{
    broadcast use bits::group_bits;

    let ghost b = pos.board@;
    let heavy = pos.pieces(PieceType::Pawn) | pos.pieces(PieceType::Rook) | pos.pieces(
        PieceType::Queen,
    );
    if heavy.any() {
        proof {
            bits::lemma_nonzero(heavy.0);
            let t = choose|t: int| heavy.has(t);
            assert(heavy.has(t));
            assert(b[t].kind() == PieceType::Pawn || b[t].kind() == PieceType::Rook || b[t].kind()
                == PieceType::Queen);
        }
        return false;
    }
    proof {
        assert forall|t: int| 0 <= t < 64 implies (#[trigger] b[t]).kind() != PieceType::Pawn
            && b[t].kind() != PieceType::Rook && b[t].kind() != PieceType::Queen by {
            assert(!heavy.has(t));
        }
    }
    let bishop = pos.pieces(PieceType::Bishop);
    let minor = pos.pieces(PieceType::Knight) | bishop;
    let light = bishop & Bitboard(LIGHT_SQUARES);
    proof {
        movegen::lemma_squares(minor.0, |t: int| is_minor(b[t]));
        movegen::lemma_squares(bishop.0, |t: int| b[t].kind() == PieceType::Bishop);
        assert forall|t: int| 0 <= t < 64 implies #[trigger] bits::bit(light.0, t) == (b[t].kind()
            == PieceType::Bishop && is_light(t)) by {
            lemma_light(t);
            assert(light.has(t) == (bishop.has(t) && bits::bit(LIGHT_SQUARES, t)));
        }
        movegen::lemma_squares(
            light.0,
            |t: int| b[t].kind() == PieceType::Bishop && is_light(t),
        );
    }
    let n = minor.count();
    if n <= 1 {
        true
    } else if n == 2 {
        bishop.count() == 2 && light.count() != 1
    } else {
        false
    }
}

/// What the side to move has more of a kind of piece than the other side.
pub open spec fn surplus(pos: &Position, pt: PieceType) -> int {
    tally::count_of(pos.board@, Piece::of(pos.side_to_move, pt)) - tally::count_of(
        pos.board@,
        Piece::of(pos.side_to_move.opp(), pt),
    )
}

/// The material of the side to move over that of the other side, at round values.
pub open spec fn material_balance(pos: &Position) -> int {
    100 * surplus(pos, PieceType::Pawn) + 320 * surplus(pos, PieceType::Knight) + 330 * surplus(
        pos,
        PieceType::Bishop,
    ) + 500 * surplus(pos, PieceType::Rook) + 900 * surplus(pos, PieceType::Queen)
}

/// Score a position by material alone, with no regard to the clock or to a network.
///
/// The values stand here, apart from those of the engine's own tables: the score serves to
/// measure a search by itself, against another one that counts the same way.
pub fn material_only(pos: &Position) -> (r: Value)
    requires
        pos.sound(),
    ensures
        r.0 == material_balance(pos),
{
    let us = pos.side_to_move();
    let them = us.flip();
    let pawns: i32 = pos.count(us, PieceType::Pawn) - pos.count(them, PieceType::Pawn);
    let knights: i32 = pos.count(us, PieceType::Knight) - pos.count(them, PieceType::Knight);
    let bishops: i32 = pos.count(us, PieceType::Bishop) - pos.count(them, PieceType::Bishop);
    let rooks: i32 = pos.count(us, PieceType::Rook) - pos.count(them, PieceType::Rook);
    let queens: i32 = pos.count(us, PieceType::Queen) - pos.count(them, PieceType::Queen);
    Value(100 * pawns + 320 * knights + 330 * bishops + 500 * rooks + 900 * queens)
}

/// The score of a drawn position.
pub fn draw_value() -> (r: Value)
    ensures
        r.0 == 0,
{
    Value(0)
}

} // verus!
