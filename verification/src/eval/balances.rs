//! What material and the blend of scores weigh.

use vstd::prelude::*;
use crate::board::movegen;
use crate::board::position::Position;
use crate::board::tally;
use crate::board::types;
use crate::board::types::{Color, Piece, PieceType};
use crate::eval;

verus! {

// ---------------------------------------------------------------------------
// Material
// ---------------------------------------------------------------------------

/// The round value of a kind of piece.
pub open spec fn round_value(pt: PieceType) -> int {
    match pt {
        PieceType::Pawn => 100,
        PieceType::Knight => 320,
        PieceType::Bishop => 330,
        PieceType::Rook => 500,
        PieceType::Queen => 900,
        _ => 0,
    }
}

/// A piece more is worth its round value to its side, and as much less to the other.
#[verifier::spinoff_prover]
pub proof fn law_a_piece_more_counts_for_its_side(
    p: Position,
    q: Position,
    i: int,
    c: Color,
    pt: PieceType,
)
    requires
        p.side_to_move == q.side_to_move,
        0 <= i < 64,
        p.board@.len() == 64,
        p.board@[i] == Piece::NONE,
        pt != PieceType::NoType,
        q.board@ == p.board@.update(i, Piece::of(c, pt)),
    ensures
        c == p.side_to_move ==> eval::material_balance(&q) == eval::material_balance(&p)
            + round_value(pt),
        c != p.side_to_move ==> eval::material_balance(&q) == eval::material_balance(&p)
            - round_value(pt),
{
    let b = p.board@;
    let pc = Piece::of(c, pt);
    tally::lemma_count_update(b, Piece::W_PAWN, i, pc, 64);
    tally::lemma_count_update(b, Piece::B_PAWN, i, pc, 64);
    tally::lemma_count_update(b, Piece::W_KNIGHT, i, pc, 64);
    tally::lemma_count_update(b, Piece::B_KNIGHT, i, pc, 64);
    tally::lemma_count_update(b, Piece::W_BISHOP, i, pc, 64);
    tally::lemma_count_update(b, Piece::B_BISHOP, i, pc, 64);
    tally::lemma_count_update(b, Piece::W_ROOK, i, pc, 64);
    tally::lemma_count_update(b, Piece::B_ROOK, i, pc, 64);
    tally::lemma_count_update(b, Piece::W_QUEEN, i, pc, 64);
    tally::lemma_count_update(b, Piece::B_QUEEN, i, pc, 64);
}

/// The same board is worth as much less to the other side.
pub proof fn law_material_is_one_sides_gain(p: Position, q: Position)
    requires
        p.board@ == q.board@,
        p.side_to_move == q.side_to_move.opp(),
    ensures
        eval::material_balance(&p) == -eval::material_balance(&q),
{
}

/// The blend's material grows with every piece, whoever has it: by 534 for a pawn, by its worth for
/// an officer, by nothing for a king.
pub proof fn law_every_piece_adds_material(b: Seq<Piece>, i: int, c: Color, pt: PieceType)
    requires
        b.len() == 64,
        0 <= i < 64,
        b[i] == Piece::NONE,
        pt != PieceType::NoType,
    ensures
        eval::material_of(b.update(i, Piece::of(c, pt))) == eval::material_of(b) + match pt {
            PieceType::Pawn => 534int,
            PieceType::Knight => 781,
            PieceType::Bishop => 825,
            PieceType::Rook => 1276,
            PieceType::Queen => 2538,
            _ => 0,
        },
{
    let pc = Piece::of(c, pt);
    tally::lemma_count_update(b, Piece::W_PAWN, i, pc, 64);
    tally::lemma_count_update(b, Piece::B_PAWN, i, pc, 64);
    tally::lemma_worth_update(b, Color::White, i, pc, 64);
    tally::lemma_worth_update(b, Color::Black, i, pc, 64);
}

// ---------------------------------------------------------------------------
// Dead draws
// ---------------------------------------------------------------------------

spec fn from(a: int, i: int) -> int {
    if a >= i {
        1
    } else {
        0
    }
}

proof fn lemma_at_least(p: spec_fn(int) -> bool, a: int, b: int, i: int)
    requires
        0 <= i <= 64,
        0 <= a < b < 64,
        p(a),
        p(b),
    ensures
        movegen::squares_from(p, i).len() >= from(a, i) + from(b, i),
    decreases 64 - i,
{
    if i < 64 {
        lemma_at_least(p, a, b, i + 1);
    }
}

proof fn lemma_one(p: spec_fn(int) -> bool, a: int, i: int)
    requires
        0 <= i <= 64,
        0 <= a < 64,
        p(a),
    ensures
        movegen::squares_from(p, i).len() >= from(a, i),
    decreases 64 - i,
{
    if i < 64 {
        lemma_one(p, a, i + 1);
    }
}

proof fn lemma_at_most(p: spec_fn(int) -> bool, a: int, b: int, i: int)
    requires
        0 <= i <= 64,
        a <= b,
        forall|t: int| 0 <= t < 64 && #[trigger] p(t) ==> t == a || t == b,
    ensures
        movegen::squares_from(p, i).len() <= from(a, i) + (if a == b {
            0
        } else {
            from(b, i)
        }),
    decreases 64 - i,
{
    if i < 64 {
        lemma_at_most(p, a, b, i + 1);
    }
}

/// Square `t` holds a man other than a king.
pub open spec fn has_man(b: Seq<Piece>, t: int) -> bool {
    b[t].kind() != PieceType::King && b[t].kind() != PieceType::NoType
}

/// Kings alone, and kings with one knight or bishop, are a dead draw.
pub proof fn law_one_minor_piece_is_a_dead_draw(b: Seq<Piece>, a: int)
    requires
        0 <= a < 64,
        forall|t: int| 0 <= t < 64 && #[trigger] has_man(b, t) ==> t == a,
        has_man(b, a) ==> b[a].kind() == PieceType::Knight || b[a].kind() == PieceType::Bishop,
    ensures
        eval::dead_draw(b),
{
    let p = |t: int| eval::is_minor(b[t]);
    assert forall|t: int| 0 <= t < 64 && #[trigger] p(t) implies t == a || t == a by {
        assert(has_man(b, t));
    }
    lemma_at_most(p, a, a, 0);
    assert forall|t: int| 0 <= t < 64 implies (#[trigger] b[t]).kind() != PieceType::Pawn
        && b[t].kind() != PieceType::Rook && b[t].kind() != PieceType::Queen by {
        if t != a {
            assert(!has_man(b, t));
        } else {
            assert(has_man(b, a) ==> b[a].kind() == PieceType::Knight || b[a].kind()
                == PieceType::Bishop);
        }
    }
}

/// Two bishops and no other man beside the kings are a dead draw exactly when they stand on squares
/// of one colour.
pub proof fn law_two_bishops_draw_on_one_colour(b: Seq<Piece>, x: int, y: int)
    requires
        0 <= x < y < 64,
        b[x].kind() == PieceType::Bishop,
        b[y].kind() == PieceType::Bishop,
        forall|t: int| 0 <= t < 64 && #[trigger] has_man(b, t) ==> t == x || t == y,
    ensures
        eval::dead_draw(b) == ((x / 8 + x % 8) % 2 == (y / 8 + y % 8) % 2),
{
    let p = |t: int| eval::is_minor(b[t]);
    let q = |t: int| b[t].kind() == PieceType::Bishop;
    let l = |t: int| b[t].kind() == PieceType::Bishop && eval::is_light(t);
    assert forall|t: int| 0 <= t < 64 && #[trigger] p(t) implies t == x || t == y by {
        assert(has_man(b, t));
    }
    assert forall|t: int| 0 <= t < 64 && #[trigger] q(t) implies t == x || t == y by {
        assert(has_man(b, t));
    }
    assert(p(x) && p(y) && q(x) && q(y));
    lemma_at_most(p, x, y, 0);
    lemma_at_least(p, x, y, 0);
    lemma_at_most(q, x, y, 0);
    lemma_at_least(q, x, y, 0);
    assert forall|t: int| 0 <= t < 64 && #[trigger] l(t) implies t == x || t == y by {
        assert(has_man(b, t));
    }
    if l(x) && l(y) {
        lemma_at_most(l, x, y, 0);
        lemma_at_least(l, x, y, 0);
    } else if l(x) {
        lemma_one(l, x, 0);
        assert forall|t: int| 0 <= t < 64 && #[trigger] l(t) implies t == x || t == x by {
            assert(has_man(b, t));
        }
        lemma_at_most(l, x, x, 0);
    } else if l(y) {
        lemma_one(l, y, 0);
        assert forall|t: int| 0 <= t < 64 && #[trigger] l(t) implies t == y || t == y by {
            assert(has_man(b, t));
        }
        lemma_at_most(l, y, y, 0);
    } else {
        assert forall|t: int| 0 <= t < 64 && #[trigger] l(t) implies t == -1 || t == -1 by {
            assert(has_man(b, t));
        }
        lemma_at_most(l, -1, -1, 0);
    }
    assert forall|t: int| 0 <= t < 64 implies (#[trigger] b[t]).kind() != PieceType::Pawn
        && b[t].kind() != PieceType::Rook && b[t].kind() != PieceType::Queen by {
        if t != x && t != y {
            assert(!has_man(b, t));
        }
    }
}

/// A pawn, a rook or a queen is never a dead draw, nor is a knight with another minor piece.
pub proof fn law_enough_men_are_no_dead_draw(b: Seq<Piece>, x: int, y: int)
    requires
        0 <= x < 64,
        0 <= y < 64,
        b[x].kind() == PieceType::Pawn || b[x].kind() == PieceType::Rook || b[x].kind()
            == PieceType::Queen || (x != y && b[x].kind() == PieceType::Knight && eval::is_minor(
            b[y],
        )),
    ensures
        !eval::dead_draw(b),
{
    if b[x].kind() == PieceType::Knight {
        let p = |t: int| eval::is_minor(b[t]);
        let q = |t: int| b[t].kind() == PieceType::Bishop;
        assert(p(x) && p(y));
        if x < y {
            lemma_at_least(p, x, y, 0);
        } else {
            lemma_at_least(p, y, x, 0);
        }
        lemma_fewer_bishops(b, x, 0);
    }
}

/// With a knight there are fewer bishops than minor pieces.
proof fn lemma_fewer_bishops(b: Seq<Piece>, x: int, i: int)
    requires
        0 <= i <= 64,
        0 <= x < 64,
        b[x].kind() == PieceType::Knight,
    ensures
        movegen::squares_from(|t: int| b[t].kind() == PieceType::Bishop, i).len() + from(x, i)
            <= movegen::squares_from(|t: int| eval::is_minor(b[t]), i).len(),
    decreases 64 - i,
{
    if i < 64 {
        lemma_fewer_bishops(b, x, i + 1);
    }
}

// ---------------------------------------------------------------------------
// The blend
// ---------------------------------------------------------------------------

/// The blend before it is cut to 32 bits.
spec fn plain_blend(psqt: int, positional: int, optimism: int, material: int) -> int {
    let complexity = eval::gap(psqt, positional);
    let hope = optimism + types::trunc_div(optimism * complexity, 476);
    let net = psqt + positional;
    let score = net - types::trunc_div(net * complexity, 18236);
    types::trunc_div(score * (77871 + material) + hope * (7191 + material), 77871)
}

proof fn lemma_trunc_grows(x: int, y: int, d: int)
    requires
        x <= y,
        d > 0,
    ensures
        types::trunc_div(x, d) <= types::trunc_div(y, d),
        types::trunc_div(-x, d) == -types::trunc_div(x, d),
        x >= 0 ==> types::trunc_div(x, d) >= 0,
        x <= 0 ==> types::trunc_div(x, d) <= 0,
        0 <= x < 0x4000_0000 ==> types::trunc_div(x, d) <= x,
{
    assert(0 <= x ==> 0 <= x / d <= y / d && x / d <= x) by (nonlinear_arith)
        requires
            x <= y,
            d > 0,
    ;
    assert(y <= 0 ==> 0 <= (-y) / d <= (-x) / d) by (nonlinear_arith)
        requires
            x <= y,
            d > 0,
    ;
    assert(x < 0 ==> (-x) / d >= 0) by (nonlinear_arith)
        requires
            d > 0,
    ;
    assert(y >= 0 ==> y / d >= 0) by (nonlinear_arith)
        requires
            d > 0,
    ;
}

/// The scores are those of a position, far from the limits of 32 bits.
pub open spec fn moderate(psqt: int, positional: int, optimism: int, material: int) -> bool {
    &&& -8000 <= psqt <= 8000
    &&& -8000 <= positional <= 8000
    &&& -8000 <= optimism <= 8000
    &&& 0 <= material <= 70000
}

#[verifier::spinoff_prover]
proof fn lemma_moderate(psqt: int, positional: int, optimism: int, material: int)
    requires
        moderate(psqt, positional, optimism, material),
    ensures
        -0x4000_0000 <= plain_blend(psqt, positional, optimism, material) <= 0x4000_0000,
        eval::blended(psqt, positional, optimism, material) == plain_blend(
            psqt,
            positional,
            optimism,
            material,
        ),
{
    let c = eval::gap(psqt, positional);
    let net = psqt + positional;
    assert(-256_000_000 <= net * c <= 256_000_000) by (nonlinear_arith)
        requires
            -16000 <= net <= 16000,
            0 <= c <= 16000,
    ;
    assert(-128_000_000 <= optimism * c <= 128_000_000) by (nonlinear_arith)
        requires
            -8000 <= optimism <= 8000,
            0 <= c <= 16000,
    ;
    let h = optimism + types::trunc_div(optimism * c, 476);
    let s = net - types::trunc_div(net * c, 18236);
    assert(-300_000 <= h <= 300_000 && -40_000 <= s <= 40_000);
    assert(-0x2_0000_0000 <= s * (77871 + material) <= 0x2_0000_0000) by (nonlinear_arith)
        requires
            -40_000 <= s <= 40_000,
            0 <= material <= 70000,
    ;
    assert(-0x8_0000_0000 <= h * (7191 + material) <= 0x8_0000_0000) by (nonlinear_arith)
        requires
            -300_000 <= h <= 300_000,
            0 <= material <= 70000,
    ;
}

/// More optimism never lowers the blend, and the blend of the opposite scores is the opposite.
#[verifier::spinoff_prover]
pub proof fn law_the_blend_follows_the_optimism(
    psqt: int,
    positional: int,
    low: int,
    high: int,
    material: int,
)
    requires
        moderate(psqt, positional, low, material),
        moderate(psqt, positional, high, material),
        low <= high,
    ensures
        eval::blended(psqt, positional, low, material) <= eval::blended(
            psqt,
            positional,
            high,
            material,
        ),
        eval::blended(-psqt, -positional, -low, material) == -eval::blended(
            psqt,
            positional,
            low,
            material,
        ),
{
    lemma_moderate(psqt, positional, low, material);
    lemma_moderate(psqt, positional, high, material);
    lemma_moderate(-psqt, -positional, -low, material);
    let c = eval::gap(psqt, positional);
    let net = psqt + positional;
    assert(low * c <= high * c) by (nonlinear_arith)
        requires
            low <= high,
            0 <= c,
    ;
    assert((-low) * c == -(low * c) && (-net) * c == -(net * c)) by (nonlinear_arith);
    lemma_trunc_grows(low * c, high * c, 476);
    lemma_trunc_grows(net * c, net * c, 18236);
    let g = low + types::trunc_div(low * c, 476);
    let h = high + types::trunc_div(high * c, 476);
    let s = net - types::trunc_div(net * c, 18236);
    assert(g * (7191 + material) <= h * (7191 + material)) by (nonlinear_arith)
        requires
            g <= h,
            0 <= material,
    ;
    let x = s * (77871 + material) + g * (7191 + material);
    let y = s * (77871 + material) + h * (7191 + material);
    lemma_trunc_grows(x, y, 77871);
    assert((-s) * (77871 + material) + (-g) * (7191 + material) == -x) by (nonlinear_arith)
        requires
            x == s * (77871 + material) + g * (7191 + material),
    ;
    assert(eval::gap(-psqt, -positional) == c);
    assert((-psqt) + (-positional) == -net);
}

/// Without optimism the blend has the sign of the network's scores together, and the further apart
/// the two are, the smaller it is.
#[verifier::spinoff_prover]
pub proof fn law_disagreement_tempers_the_network(
    p: int,
    q: int,
    far_p: int,
    far_q: int,
    material: int,
)
    requires
        moderate(p, q, 0, material),
        moderate(far_p, far_q, 0, material),
        p + q == far_p + far_q,
        p + q >= 0,
        eval::gap(p, q) <= eval::gap(far_p, far_q),
    ensures
        0 <= eval::blended(far_p, far_q, 0, material) <= eval::blended(p, q, 0, material),
        p == q ==> eval::blended(p, q, 0, material) >= p + q,
{
    lemma_moderate(p, q, 0, material);
    lemma_moderate(far_p, far_q, 0, material);
    let net = p + q;
    let c = eval::gap(p, q);
    let d = eval::gap(far_p, far_q);
    assert(net * c <= net * d && net * d <= net * 16000) by (nonlinear_arith)
        requires
            0 <= net,
            c <= d <= 16000,
    ;
    assert(net * c >= 0) by (nonlinear_arith)
        requires
            0 <= net,
            0 <= c,
    ;
    lemma_trunc_grows(net * c, net * d, 18236);
    let s = net - types::trunc_div(net * c, 18236);
    let t = net - types::trunc_div(net * d, 18236);
    assert(types::trunc_div(net * d, 18236) <= net) by {
        assert(net * d <= net * 18236) by (nonlinear_arith)
            requires
                0 <= net,
                d <= 16000,
        ;
        assert((net * d) / 18236 <= net) by (nonlinear_arith)
            requires
                net * d <= net * 18236,
                0 <= net,
        ;
    }
    let m = 77871 + material;
    assert(0 <= t * m <= s * m && (s >= 0 ==> s * m >= s * 77871)) by (nonlinear_arith)
        requires
            0 <= t <= s,
            m >= 77871,
    ;
    assert(0 * c == 0 && 0 * d == 0 && 0 * (7191 + material) == 0) by (nonlinear_arith);
    lemma_trunc_grows(t * m, s * m, 77871);
    lemma_trunc_grows(0, t * m, 77871);
    if p == q {
        assert(net * 0 == 0) by (nonlinear_arith);
        assert(s == net);
        lemma_trunc_grows(net * 77871, s * m, 77871);
        assert((net * 77871) / 77871 == net);
    }
}

/// Where the network's scores cancel, the optimism counts alone, the more the further apart they
/// are.
#[verifier::spinoff_prover]
pub proof fn law_disagreement_feeds_the_optimism(p: int, far: int, optimism: int, material: int)
    requires
        0 <= p <= far,
        0 <= optimism,
        moderate(p, -p, optimism, material),
        moderate(far, -far, optimism, material),
    ensures
        0 <= eval::blended(p, -p, optimism, material) <= eval::blended(
            far,
            -far,
            optimism,
            material,
        ),
{
    lemma_moderate(p, -p, optimism, material);
    lemma_moderate(far, -far, optimism, material);
    let c = eval::gap(p, -p);
    let d = eval::gap(far, -far);
    assert(0 <= optimism * c <= optimism * d) by (nonlinear_arith)
        requires
            0 <= optimism,
            0 <= c <= d,
    ;
    lemma_trunc_grows(optimism * c, optimism * d, 476);
    let g = optimism + types::trunc_div(optimism * c, 476);
    let h = optimism + types::trunc_div(optimism * d, 476);
    assert(0 <= g * (7191 + material) <= h * (7191 + material)) by (nonlinear_arith)
        requires
            0 <= g <= h,
            0 <= material,
    ;
    assert(0 * c == 0 && 0 * d == 0 && 0 * (77871 + material) == 0) by (nonlinear_arith);
    lemma_trunc_grows(g * (7191 + material), h * (7191 + material), 77871);
}

} // verus!
