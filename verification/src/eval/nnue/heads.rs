//! For whom the network counts: the side to move's own features speak for it, the other side's
//! against it.

use vstd::prelude::*;
use crate::board::placement;
use crate::board::types;
use crate::board::types::{Color, Piece, PieceType};
use crate::eval::nnue::features;
use crate::eval::nnue::layers;
use crate::eval::nnue::pawn_pairs;
use crate::eval::nnue::threat_features;
use crate::eval::nnue::transformer;
use crate::eval::nnue::weights;
use crate::eval::nnue::weights::FeatureTransformer;

verus! {

/// What the rows of `p`'s features add up to in column `j` of the piece-square head.
pub open spec fn own_sum(ft: &FeatureTransformer, b: Seq<Piece>, p: Color, j: int) -> int {
    transformer::head_sum(
        ft,
        transformer::ka_set(b, p, placement::king(b, p)),
        transformer::tp_set(b, p, placement::king(b, p)),
        j,
    )
}

/// The sums of both sides, and their difference, fit in 32 bits.
pub open spec fn no_overflow(ft: &FeatureTransformer, b: Seq<Piece>, j: int) -> bool {
    let w = own_sum(ft, b, Color::White, j);
    let k = own_sum(ft, b, Color::Black, j);
    &&& -0x8000_0000 <= w < 0x8000_0000
    &&& -0x8000_0000 <= k < 0x8000_0000
    &&& -0x7fff_ffff <= w - k < 0x8000_0000
}

proof fn lemma_wrapped(x: int, y: int)
    requires
        -0x8000_0000 <= x < 0x8000_0000,
        -0x8000_0000 <= y < 0x8000_0000,
        -0x8000_0000 <= x - y < 0x8000_0000,
    ensures
        layers::wrap32(layers::wrap32(x) - layers::wrap32(y)) == x - y,
{
    layers::lemma_wrap32(x, 0);
    layers::lemma_wrap32(y, 0);
    layers::lemma_wrap32(x - y, 0);
}

proof fn lemma_plain(ft: &FeatureTransformer, b: Seq<Piece>, stm: Color, j: int)
    requires
        no_overflow(ft, b, j),
    ensures
        transformer::psqt_of(ft, b, stm, j) == types::trunc_div(
            own_sum(ft, b, stm, j) - own_sum(ft, b, stm.opp(), j),
            2,
        ),
{
    let x = own_sum(ft, b, stm, j);
    let y = own_sum(ft, b, stm.opp(), j);
    assert(transformer::head_of(ft, b, stm, j) == layers::wrap32(x));
    assert(transformer::head_of(ft, b, stm.opp(), j) == layers::wrap32(y));
    lemma_wrapped(x, y);
}

proof fn lemma_halved(d: int)
    ensures
        types::trunc_div(2 * d, 2) == d,
        types::trunc_div(-2 * d, 2) == -d,
{
}

/// The piece-square score is half of what the side to move's sum has over the other's: positive
/// where it is ahead, negative where it is behind, and turned round with the side to move.
pub proof fn law_the_score_is_half_of_the_lead(
    ft: &FeatureTransformer,
    b: Seq<Piece>,
    stm: Color,
    j: int,
    d: int,
)
    requires
        no_overflow(ft, b, j),
        own_sum(ft, b, stm, j) - own_sum(ft, b, stm.opp(), j) == 2 * d,
    ensures
        transformer::psqt_of(ft, b, stm, j) == d,
        transformer::psqt_of(ft, b, stm.opp(), j) == -d,
{
    lemma_plain(ft, b, stm, j);
    lemma_plain(ft, b, stm.opp(), j);
    assert(stm.opp().opp() == stm);
    lemma_halved(d);
}

proof fn lemma_half_grows(x: int, y: int)
    requires
        x <= y,
    ensures
        types::trunc_div(x, 2) <= types::trunc_div(y, 2),
{
}

proof fn lemma_total_grows(s: Seq<u32>, f: spec_fn(int) -> int, g: spec_fn(int) -> int)
    requires
        forall|i: int| 0 <= i < s.len() ==> f(#[trigger] s[i] as int) <= g(s[i] as int),
    ensures
        features::total(s, f) <= features::total(s, g),
    decreases s.len(),
{
    if s.len() > 0 {
        let t = s.drop_last();
        assert forall|i: int| 0 <= i < t.len() implies f(#[trigger] t[i] as int) <= g(t[i] as int) by {
            assert(t[i] == s[i]);
        }
        lemma_total_grows(t, f, g);
        assert(f(s[s.len() - 1] as int) <= g(s[s.len() - 1] as int));
    }
}

/// In column `j` of the head, every row of a feature that `p` has is at least as heavy in `up` as
/// in `ft`.
pub open spec fn weighs_more(
    up: &FeatureTransformer,
    ft: &FeatureTransformer,
    b: Seq<Piece>,
    p: Color,
    j: int,
) -> bool {
    &&& forall|i: int|
        #![trigger transformer::ka_set(b, p, placement::king(b, p))[i]]
        0 <= i < transformer::ka_set(b, p, placement::king(b, p)).len() ==> ({
            let x = transformer::ka_set(b, p, placement::king(b, p))[i] as int;
            ft.psqt_weights@[x * 8 + j] <= up.psqt_weights@[x * 8 + j]
        })
    &&& forall|i: int|
        #![trigger transformer::tp_set(b, p, placement::king(b, p))[i]]
        0 <= i < transformer::tp_set(b, p, placement::king(b, p)).len() ==> ({
            let x = transformer::tp_set(b, p, placement::king(b, p))[i] as int;
            ft.threat_and_pp_psqt_weights@[x * 8 + j] <= up.threat_and_pp_psqt_weights@[x * 8 + j]
        })
}

proof fn lemma_ka_below(b: Seq<Piece>, p: Color, ksq: int, n: int)
    requires
        0 <= ksq < 64,
        n <= 64,
    ensures
        weights::below(features::halfka_upto(b, p, ksq, n), 22528),
    decreases n,
{
    if n > 0 {
        lemma_ka_below(b, p, ksq, n - 1);
        features::law_halfka_in_range(p, n - 1, b[n - 1], ksq);
    }
}

proof fn lemma_tp_below(b: Seq<Piece>, p: Color, ksq: int)
    ensures
        weights::below(transformer::tp_set(b, p, ksq), 64368),
{
    let w = pawn_pairs::pawns(b, Color::White);
    let k = pawn_pairs::pawns(b, Color::Black);
    transformer::lemma_threats_below(b, p, ksq, 64);
    transformer::lemma_pairs_below(w, k, 0xffff_ffff_ffff_ffff, p, ksq, 64);
    transformer::lemma_below_add(
        threat_features::threats_upto(b, p, ksq, 64),
        pawn_pairs::pairs_of(w, k, p, ksq),
        64368,
    );
}

proof fn lemma_weighs(
    up: &FeatureTransformer,
    ft: &FeatureTransformer,
    b: Seq<Piece>,
    p: Color,
    j: int,
)
    requires
        up.wf(),
        ft.wf(),
        0 <= j < 8,
        0 <= placement::king(b, p) < 64,
        weighs_more(up, ft, b, p, j),
    ensures
        own_sum(ft, b, p, j) <= own_sum(up, b, p, j),
{
    let k = placement::king(b, p);
    let ka = transformer::ka_set(b, p, k);
    let tp = transformer::tp_set(b, p, k);
    lemma_ka_below(b, p, k, 64);
    lemma_tp_below(b, p, k);
    lemma_total_grows(ka, ft.ka_head(j), up.ka_head(j));
    lemma_total_grows(tp, ft.tp_head(j), up.tp_head(j));
}

/// Heavier rows for the features of the side to move, and lighter ones for the other side's, never
/// lower the piece-square score.
#[verifier::spinoff_prover]
#[verifier::rlimit(40)]
pub proof fn law_own_features_speak_for_the_side_to_move(
    up: &FeatureTransformer,
    ft: &FeatureTransformer,
    b: Seq<Piece>,
    stm: Color,
    j: int,
)
    requires
        up.wf(),
        ft.wf(),
        0 <= j < 8,
        0 <= placement::king(b, Color::White) < 64,
        0 <= placement::king(b, Color::Black) < 64,
        no_overflow(ft, b, j),
        no_overflow(up, b, j),
        weighs_more(up, ft, b, stm, j),
        weighs_more(ft, up, b, stm.opp(), j),
    ensures
        transformer::psqt_of(up, b, stm, j) >= transformer::psqt_of(ft, b, stm, j),
{
    lemma_weighs(up, ft, b, stm, j);
    lemma_weighs(ft, up, b, stm.opp(), j);
    lemma_plain(up, b, stm, j);
    lemma_plain(ft, b, stm, j);
    lemma_half_grows(
        own_sum(ft, b, stm, j) - own_sum(ft, b, stm.opp(), j),
        own_sum(up, b, stm, j) - own_sum(up, b, stm.opp(), j),
    );
}

/// How many of the first `n` squares hold a piece of `c` that is no king.
pub open spec fn men_upto(b: Seq<Piece>, c: Color, n: int) -> int
    decreases n,
{
    if n <= 0 {
        0
    } else if b[n - 1].is_real() && b[n - 1].side() == c && b[n - 1].kind() != PieceType::King {
        men_upto(b, c, n - 1) + 1
    } else {
        men_upto(b, c, n - 1)
    }
}

/// Column `j` of the head weighs every own piece `v`, every enemy piece `-v`, and nothing else. Of
/// the 704 features of a king's bucket, 64 squares each, own and enemy pieces take turns, and the
/// last 64 are the kings'.
pub open spec fn plain_material(ft: &FeatureTransformer, j: int, v: int) -> bool {
    &&& forall|x: int|
        0 <= x < 22528 ==> #[trigger] ft.psqt_weights@[x * 8 + j] == (if x % 704 >= 640 {
            0
        } else if (x % 704 / 64) % 2 == 0 {
            v
        } else {
            -v
        })
    &&& forall|x: int|
        0 <= x < 64368 ==> #[trigger] ft.threat_and_pp_psqt_weights@[x * 8 + j] == 0
}

proof fn lemma_parts(o: int, n: int, k: int)
    requires
        0 <= o < 64,
        0 <= n <= 10,
    ensures
        (o + 64 * n + 704 * k) % 704 == o + 64 * n,
        (o + 64 * n) / 64 == n,
{
}

#[verifier::spinoff_prover]
proof fn lemma_block(p: Color, s: int, pc: Piece, ksq: int)
    requires
        0 <= s < 64,
        0 <= ksq < 64,
        pc.is_real(),
    ensures
        ({
            let x = features::halfka_of(p, s, pc, ksq);
            &&& 0 <= x < 22528
            &&& (x % 704 >= 640) == (pc.kind() == PieceType::King)
            &&& pc.kind() != PieceType::King ==> ((x % 704 / 64) % 2 == 0) == (pc.side() == p)
        }),
{
    features::law_halfka_in_range(p, s, pc, ksq);
    let o = features::oriented(s, features::halfka_mirrors(ksq), p == Color::Black);
    let k = features::king_bucket(features::oriented(ksq, false, p == Color::Black));
    assert(0 <= o < 64);
    let kind = pc.kind();
    let n: int = if kind == PieceType::King {
        10
    } else if pc.side() == p {
        2 * (kind.idx() - 1)
    } else {
        2 * (kind.idx() - 1) + 1
    };
    assert(0 <= n <= 10 && features::piece_base(p, pc) == 64 * n);
    lemma_parts(o, n, k);
}

proof fn lemma_material(ft: &FeatureTransformer, b: Seq<Piece>, p: Color, ksq: int, j: int, v: int, n: int)
    requires
        ft.wf(),
        placement::clean(b),
        0 <= ksq < 64,
        0 <= j < 8,
        0 <= n <= 64,
        plain_material(ft, j, v),
    ensures
        features::total(features::halfka_upto(b, p, ksq, n), ft.ka_head(j)) == v * (men_upto(b, p, n)
            - men_upto(b, p.opp(), n)),
        0 <= men_upto(b, p, n) <= n,
        0 <= men_upto(b, p.opp(), n) <= n,
    decreases n,
{
    if n > 0 {
        lemma_material(ft, b, p, ksq, j, v, n - 1);
        let m = men_upto(b, p, n - 1) - men_upto(b, p.opp(), n - 1);
        assert(b[n - 1] == Piece::NONE || b[n - 1].is_real());
        assert(v * (m + 1) == v * m + v && v * (m - 1) == v * m - v) by (nonlinear_arith);
        if b[n - 1] != Piece::NONE {
            let x = features::halfka_of(p, n - 1, b[n - 1], ksq);
            lemma_block(p, n - 1, b[n - 1], ksq);
            features::lemma_total_push(
                features::halfka_upto(b, p, ksq, n - 1),
                x as u32,
                ft.ka_head(j),
            );
            assert(ft.ka_head(j)(x) == ft.psqt_weights@[x * 8 + j]);
            if b[n - 1].kind() != PieceType::King {
                assert(b[n - 1].side() == p || b[n - 1].side() == p.opp());
            }
        }
    } else {
        assert(v * 0 == 0);
    }
}

proof fn lemma_no_threats(s: Seq<u32>, f: spec_fn(int) -> int)
    requires
        forall|i: int| 0 <= i < s.len() ==> f(#[trigger] s[i] as int) == 0,
    ensures
        features::total(s, f) == 0,
    decreases s.len(),
{
    if s.len() > 0 {
        let t = s.drop_last();
        assert forall|i: int| 0 <= i < t.len() implies f(#[trigger] t[i] as int) == 0 by {
            assert(t[i] == s[i]);
        }
        lemma_no_threats(t, f);
        assert(f(s[s.len() - 1] as int) == 0);
    }
}

proof fn lemma_own_sum(ft: &FeatureTransformer, b: Seq<Piece>, p: Color, j: int, v: int)
    requires
        ft.wf(),
        placement::clean(b),
        0 <= placement::king(b, p) < 64,
        0 <= j < 8,
        plain_material(ft, j, v),
    ensures
        own_sum(ft, b, p, j) == v * (men_upto(b, p, 64) - men_upto(b, p.opp(), 64)),
        0 <= men_upto(b, p, 64) <= 64,
        0 <= men_upto(b, p.opp(), 64) <= 64,
{
    let k = placement::king(b, p);
    let tp = transformer::tp_set(b, p, k);
    lemma_material(ft, b, p, k, j, v, 64);
    lemma_tp_below(b, p, k);
    assert forall|i: int| 0 <= i < tp.len() implies ft.tp_head(j)(#[trigger] tp[i] as int) == 0 by {
        let x = tp[i] as int;
        assert(ft.threat_and_pp_psqt_weights@[x * 8 + j] == 0);
    }
    lemma_no_threats(tp, ft.tp_head(j));
}

/// A head that weighs every own piece `v` and every enemy piece `-v` scores the side to move `v`
/// for each piece that it has more than the other.
pub proof fn law_a_material_head_counts_material(
    ft: &FeatureTransformer,
    b: Seq<Piece>,
    stm: Color,
    j: int,
    v: int,
)
    requires
        ft.wf(),
        placement::clean(b),
        0 <= placement::king(b, Color::White) < 64,
        0 <= placement::king(b, Color::Black) < 64,
        0 <= j < 8,
        -10_000_000 <= v <= 10_000_000,
        plain_material(ft, j, v),
    ensures
        transformer::psqt_of(ft, b, stm, j) == v * (men_upto(b, stm, 64) - men_upto(
            b,
            stm.opp(),
            64,
        )),
{
    let m = men_upto(b, stm, 64) - men_upto(b, stm.opp(), 64);
    lemma_own_sum(ft, b, stm, j, v);
    lemma_own_sum(ft, b, stm.opp(), j, v);
    assert(stm.opp().opp() == stm);
    assert(v * (-m) == -(v * m)) by (nonlinear_arith);
    assert(-640_000_000 <= v * m <= 640_000_000) by (nonlinear_arith)
        requires
            -10_000_000 <= v <= 10_000_000,
            -64 <= m <= 64,
    ;
    law_the_score_is_half_of_the_lead(ft, b, stm, j, v * m);
}

/// The first half of the transformed features is the side to move's, the second the other's: where
/// either of a side's two columns is not positive the output is 0, and where both are full it is
/// 127.
#[verifier::spinoff_prover]
pub proof fn law_the_halves_belong_to_the_sides(ft: &FeatureTransformer, b: Seq<Piece>, stm: Color, i: int)
    requires
        0 <= i < 512,
    ensures
        transformer::transformed_of(ft, b, stm).len() == 1024,
        transformer::acc_of(ft, b, stm, i) <= 0 || transformer::acc_of(ft, b, stm, 512 + i) <= 0
            ==> transformer::transformed_of(ft, b, stm)[i] == 0,
        transformer::acc_of(ft, b, stm, i) >= 255 && transformer::acc_of(ft, b, stm, 512 + i)
            >= 255 ==> transformer::transformed_of(ft, b, stm)[i] == 127,
        transformer::acc_of(ft, b, stm.opp(), i) <= 0 || transformer::acc_of(
            ft,
            b,
            stm.opp(),
            512 + i,
        ) <= 0 ==> transformer::transformed_of(ft, b, stm)[512 + i] == 0,
        transformer::acc_of(ft, b, stm.opp(), i) >= 255 && transformer::acc_of(
            ft,
            b,
            stm.opp(),
            512 + i,
        ) >= 255 ==> transformer::transformed_of(ft, b, stm)[512 + i] == 127,
{
    assert forall|x: int, y: int| x <= 0 || y <= 0 implies #[trigger] (transformer::held255(x)
        * transformer::held255(y)) == 0 by {
        let u = transformer::held255(x);
        let w = transformer::held255(y);
        assert(u * w == 0) by (nonlinear_arith)
            requires
                u == 0 || w == 0,
        ;
    }
}

/// Raising a side's columns never lowers its outputs.
#[verifier::spinoff_prover]
pub proof fn law_outputs_rise_with_the_columns(
    up: &FeatureTransformer,
    ft: &FeatureTransformer,
    b: Seq<Piece>,
    p: Color,
    i: int,
)
    requires
        0 <= i < 512,
        transformer::acc_of(ft, b, p, i) <= transformer::acc_of(up, b, p, i),
        transformer::acc_of(ft, b, p, 512 + i) <= transformer::acc_of(up, b, p, 512 + i),
    ensures
        transformer::transformed_of(ft, b, p)[i] <= transformer::transformed_of(up, b, p)[i],
        transformer::transformed_of(ft, b, p.opp())[512 + i] <= transformer::transformed_of(
            up,
            b,
            p.opp(),
        )[512 + i],
        transformer::transformed_of(ft, b, p)[i] == transformer::transformed_of(ft, b, p.opp())[512
            + i],
        transformer::transformed_of(up, b, p)[i] <= 127,
{
    let x = transformer::held255(transformer::acc_of(ft, b, p, i));
    let y = transformer::held255(transformer::acc_of(ft, b, p, 512 + i));
    let u = transformer::held255(transformer::acc_of(up, b, p, i));
    let w = transformer::held255(transformer::acc_of(up, b, p, 512 + i));
    assert(0 <= x * y <= u * w <= 65025) by (nonlinear_arith)
        requires
            0 <= x <= u <= 255,
            0 <= y <= w <= 255,
    ;
    assert(p.opp().opp() == p);
}

/// Own pieces have the block before the enemy's of the same kind, and the kinds follow one another
/// from pawn to queen: with the king and the square alike, the features are 64 and 128 apart.
pub proof fn law_blocks_follow_one_another(p: Color, s: int, pt: PieceType, nt: PieceType, ksq: int)
    requires
        (pt == PieceType::Pawn && nt == PieceType::Knight) || (pt == PieceType::Knight && nt
            == PieceType::Bishop) || (pt == PieceType::Bishop && nt == PieceType::Rook) || (pt
            == PieceType::Rook && nt == PieceType::Queen) || (pt == PieceType::Queen && nt
            == PieceType::King),
    ensures
        features::halfka_of(p, s, Piece::of(p.opp(), pt), ksq) == features::halfka_of(
            p,
            s,
            Piece::of(p, pt),
            ksq,
        ) + 64,
        features::halfka_of(p, s, Piece::of(p, nt), ksq) == features::halfka_of(
            p,
            s,
            Piece::of(p, pt),
            ksq,
        ) + 128,
        features::halfka_of(p, s, Piece::of(p, PieceType::King), ksq) == features::halfka_of(
            p,
            s,
            Piece::of(p.opp(), PieceType::King),
            ksq,
        ),
{
}

proof fn lemma_turned(s: int)
    requires
        0 <= s < 64,
    ensures
        (8 * (7 - s / 8) + s % 8) / 8 == 7 - s / 8,
        (8 * (7 - s / 8) + s % 8) % 8 == s % 8,
        (8 * (s / 8) + 7 - s % 8) / 8 == s / 8,
        (8 * (s / 8) + 7 - s % 8) % 8 == 7 - s % 8,
{
}

#[verifier::spinoff_prover]
proof fn lemma_bucket(ksq: int, black: bool)
    requires
        0 <= ksq < 64,
    ensures
        features::king_bucket(features::oriented(8 * (ksq / 8) + 7 - ksq % 8, false, black))
            == features::king_bucket(features::oriented(ksq, false, black)),
{
    lemma_turned(ksq);
    let a = features::oriented(8 * (ksq / 8) + 7 - ksq % 8, false, black);
    let b = features::oriented(ksq, false, black);
    assert(a / 8 == b / 8 && a % 8 == 7 - b % 8);
}

/// The king's square decides the bucket: two kings of a side share one only on the same rank, on the
/// same file or on the two files mirrored, and there are 32 of them.
pub proof fn law_kings_have_their_own_buckets(k: int, l: int)
    requires
        0 <= k < 64,
        0 <= l < 64,
    ensures
        0 <= features::king_bucket(k) < 32,
        (features::king_bucket(k) == features::king_bucket(l)) == (k / 8 == l / 8 && (k % 8 == l % 8
            || k % 8 + l % 8 == 7)),
        k / 8 < l / 8 ==> features::king_bucket(k) > features::king_bucket(l),
{
}

/// The two sides see a position alike: with board, pieces and king turned round, a feature stays
/// what it was. Mirroring king and square along the files changes nothing either.
#[verifier::spinoff_prover]
pub proof fn law_features_are_alike_for_both_sides(p: Color, s: int, c: Color, pt: PieceType, ksq: int)
    requires
        0 <= s < 64,
        0 <= ksq < 64,
        pt != PieceType::NoType,
    ensures
        features::halfka_of(
            p.opp(),
            8 * (7 - s / 8) + s % 8,
            Piece::of(c.opp(), pt),
            8 * (7 - ksq / 8) + ksq % 8,
        ) == features::halfka_of(p, s, Piece::of(c, pt), ksq),
        features::halfka_of(
            p,
            8 * (s / 8) + 7 - s % 8,
            Piece::of(c, pt),
            8 * (ksq / 8) + 7 - ksq % 8,
        ) == features::halfka_of(p, s, Piece::of(c, pt), ksq),
{
    let black = p == Color::Black;
    let files = features::halfka_mirrors(ksq);
    let (su, ku) = (8 * (7 - s / 8) + s % 8, 8 * (7 - ksq / 8) + ksq % 8);
    let (sm, km) = (8 * (s / 8) + 7 - s % 8, 8 * (ksq / 8) + 7 - ksq % 8);
    lemma_turned(s);
    lemma_turned(ksq);
    assert(features::piece_base(p.opp(), Piece::of(c.opp(), pt)) == features::piece_base(
        p,
        Piece::of(c, pt),
    ));
    assert(features::oriented(su, files, !black) == features::oriented(s, files, black));
    assert(features::oriented(ku, false, !black) == features::oriented(ksq, false, black));
    assert(features::oriented(sm, !files, black) == features::oriented(s, files, black));
    lemma_bucket(ksq, black);
}

} // verus!
