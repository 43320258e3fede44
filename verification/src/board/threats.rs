//! The threats that placing or removing one piece changes.
//!
//! A threat is an ordered pair of pieces where the first attacks the second. When a piece is
//! placed, its own threats and the threats against it appear, and sliders that looked through
//! its square lose what stood behind; when it is removed the reverse happens. In both cases the
//! piece stands on the board while the change is computed.

use vstd::prelude::*;
use crate::board::attacks::{both_attacks_bb, piece_attacks, ray_pass_bb};
use crate::board::attacks;
use crate::board::bitboard::{knight_attacks, pawn_attacks_from, Bitboard};
use crate::board::bitboard;
use crate::board::bits;
use crate::board::movegen;
use crate::board::placement;
use crate::board::placement::Board;
use crate::board::position::Position;
use crate::board::tally;
use crate::board::types::{Color, Piece, PieceType, Square};

verus! {

/// One threat that a placement adds or removes, packed into a word: the direction of the
/// change in the highest bit, then the attacker, the attacked piece, and their squares.
#[derive(Clone, Copy, Debug, PartialEq, Eq, Structural)]
pub struct DirtyThreat(pub u32);

/// The threat with the given parts.
pub open spec fn packed(add: bool, attacker: Piece, attacked: Piece, from: int, to: int) -> DirtyThreat {
    DirtyThreat(
        ((if add {
            0x8000_0000int
        } else {
            0int
        }) + attacker.code() * 0x10_0000 + attacked.code() * 0x1_0000 + to * 0x100 + from) as u32,
    )
}

impl DirtyThreat {
    /// The threat appears.
    pub open spec fn adds(self) -> bool {
        self.0 as int / 0x8000_0000 != 0
    }

    /// The attacker.
    pub open spec fn aggressor(self) -> Piece {
        tally::coded((self.0 as int / 0x10_0000) % 16)
    }

    /// The attacked piece.
    pub open spec fn victim(self) -> Piece {
        tally::coded((self.0 as int / 0x1_0000) % 16)
    }

    /// The attacker's square.
    pub open spec fn src(self) -> int {
        self.0 as int % 64
    }

    /// The attacked piece's square.
    pub open spec fn dst(self) -> int {
        (self.0 as int / 0x100) % 64
    }

    /// Pack a threat.
    fn new(add: bool, attacker: Piece, attacked: Piece, from: Square, to: Square) -> (r: DirtyThreat)
        ensures
            r == packed(add, attacker, attacked, from.idx(), to.idx()),
    {
        broadcast use Square::lemma_idx;

        let sign: u32 = if add {
            0x8000_0000
        } else {
            0
        };
        let a: u32 = attacker.raw() as u32;
        let b: u32 = attacked.raw() as u32;
        let f: u32 = from.index() as u32;
        let t: u32 = to.index() as u32;
        DirtyThreat(sign + a * 0x10_0000 + b * 0x1_0000 + t * 0x100 + f)
    }

    /// True when the placement creates this threat, false when it destroys one.
    pub fn is_add(self) -> (r: bool)
        ensures
            r == self.adds(),
    {
        self.0 / 0x8000_0000 != 0
    }

    /// The piece doing the threatening.
    pub fn attacker(self) -> (r: Piece)
        ensures
            r == self.aggressor(),
    {
        let r = Piece::from_raw(((self.0 / 0x10_0000) % 16) as u8);
        proof {
            tally::lemma_coded(r);
        }
        r
    }

    /// The piece being threatened.
    pub fn attacked(self) -> (r: Piece)
        ensures
            r == self.victim(),
    {
        let r = Piece::from_raw(((self.0 / 0x1_0000) % 16) as u8);
        proof {
            tally::lemma_coded(r);
        }
        r
    }

    /// The square the attacker stands on.
    pub fn from(self) -> (r: Square)
        ensures
            r.idx() == self.src(),
    {
        Square::new((self.0 % 64) as usize)
    }

    /// The square the threatened piece stands on.
    pub fn to(self) -> (r: Square)
        ensures
            r.idx() == self.dst(),
    {
        Square::new(((self.0 / 0x100) % 64) as usize)
    }
}

/// A packed threat gives its parts back.
pub proof fn law_threat_fields(add: bool, attacker: Piece, attacked: Piece, from: int, to: int)
    requires
        0 <= from < 64,
        0 <= to < 64,
    ensures
        packed(add, attacker, attacked, from, to).adds() == add,
        packed(add, attacker, attacked, from, to).aggressor() == attacker,
        packed(add, attacker, attacked, from, to).victim() == attacked,
        packed(add, attacker, attacked, from, to).src() == from,
        packed(add, attacker, attacked, from, to).dst() == to,
{
    tally::lemma_coded(attacker);
    tally::lemma_coded(attacked);
    let sign = if add {
        0x8000_0000int
    } else {
        0int
    };
    lemma_fields(sign, attacker.code(), attacked.code(), from, to);
}

proof fn lemma_fields(sign: int, a: int, b: int, f: int, t: int)
    requires
        sign == 0 || sign == 0x8000_0000,
        0 <= a < 16,
        0 <= b < 16,
        0 <= f < 64,
        0 <= t < 64,
    ensures
        ({
            let w = sign + a * 0x10_0000 + b * 0x1_0000 + t * 0x100 + f;
            &&& 0 <= w < 0x1_0000_0000
            &&& (w / 0x8000_0000 != 0) == (sign != 0)
            &&& (w / 0x10_0000) % 16 == a
            &&& (w / 0x1_0000) % 16 == b
            &&& (w / 0x100) % 64 == t
            &&& w % 64 == f
        }),
{
    let w = sign + a * 0x10_0000 + b * 0x1_0000 + t * 0x100 + f;
    assert(w / 0x10_0000 == sign / 0x10_0000 + a);
    assert(w / 0x1_0000 == sign / 0x1_0000 + a * 16 + b);
    assert(w / 0x100 == sign / 0x100 + a * 0x1000 + b * 0x100 + t);
}

// ---------------------------------------------------------------------------
// What changes
// ---------------------------------------------------------------------------

/// A threatened queen counts only when the slider is itself a queen.
pub open spec fn slider_counts(pc: Piece, slider: Piece) -> bool {
    pc.kind() != PieceType::Queen || slider.kind() == PieceType::Queen
}

/// A slider on `q` bears on `s`.
pub open spec fn bears_on(b: Seq<Piece>, s: int, q: int) -> bool {
    let w = placement::occ(b);
    let pt = b[q].kind();
    ||| (pt == PieceType::Rook || pt == PieceType::Queen) && attacks::rook_hits(w, s, q)
    ||| (pt == PieceType::Bishop || pt == PieceType::Queen) && attacks::bishop_hits(w, s, q)
}

/// A piece that is not a king stands on `t`.
pub open spec fn is_man(b: Seq<Piece>, t: int) -> bool {
    b[t] != Piece::NONE && b[t].kind() != PieceType::King
}

/// The man on `t` is what the slider on `q` would see beyond `s`.
pub open spec fn hidden_man(b: Seq<Piece>, s: int, q: int, t: int) -> bool {
    let w = placement::occ(b);
    &&& attacks::on_common_ray(q, s, t)
    &&& attacks::rook_hits(w, s, t) || attacks::bishop_hits(w, s, t)
    &&& is_man(b, t)
}

/// Every member of `no_rays` lies on the ray from `q` through `s`.
pub open spec fn ray_holds(no_rays: u64, q: int, s: int) -> bool {
    forall|i: int| #[trigger] bits::bit(no_rays, i) ==> attacks::on_common_ray(q, s, i)
}

/// What the slider on `q` gains or loses.
#[verifier::opaque]
pub open spec fn slider_change(
    b: Seq<Piece>,
    pc: Piece,
    put: bool,
    s: int,
    no_rays: u64,
    direct: bool,
    q: int,
) -> Seq<DirtyThreat> {
    let hidden = movegen::squares(|t: int| hidden_man(b, s, q, t));
    let beyond = if hidden.len() > 0 && !ray_holds(no_rays, q, s) && slider_counts(
        b[hidden[0]],
        b[q],
    ) {
        seq![packed(!put, b[q], b[hidden[0]], q, hidden[0])]
    } else {
        Seq::empty()
    };
    let on_it = if direct && slider_counts(pc, b[q]) {
        seq![packed(put, b[q], pc, q, s)]
    } else {
        Seq::empty()
    };
    beyond + on_it
}

/// What the sliders on the first `n` of the squares `qs` gain or lose.
pub open spec fn slider_changes(
    b: Seq<Piece>,
    pc: Piece,
    put: bool,
    s: int,
    no_rays: u64,
    direct: bool,
    qs: Seq<int>,
    n: int,
) -> Seq<DirtyThreat>
    decreases n,
{
    if n <= 0 {
        Seq::empty()
    } else {
        slider_changes(b, pc, put, s, no_rays, direct, qs, n - 1) + slider_change(
            b,
            pc,
            put,
            s,
            no_rays,
            direct,
            qs[n - 1],
        )
    }
}

/// Threats against the piece `t` by an attacker of kind `pt` are counted.
pub open spec fn counted(pt: PieceType, t: Piece) -> bool {
    match pt {
        PieceType::Pawn => t.kind() == PieceType::Knight || t.kind() == PieceType::Rook,
        PieceType::Bishop | PieceType::Rook => t.kind() == PieceType::Pawn || t.kind()
            == PieceType::Knight || t.kind() == PieceType::Bishop || t.kind() == PieceType::Rook,
        _ => true,
    }
}

/// The piece `pc` on `s` threatens the man on `t`.
pub open spec fn threatens(b: Seq<Piece>, pc: Piece, s: int, t: int) -> bool {
    &&& attacks::hits(pc.side(), pc.kind(), placement::occ(b), s, t)
    &&& is_man(b, t)
    &&& counted(pc.kind(), b[t])
}

/// A knight, a pawn, or with `with_sliders` a slider on `q` threatens the piece `pc` on `s`.
pub open spec fn threatened_by(b: Seq<Piece>, pc: Piece, s: int, with_sliders: bool, q: int) -> bool {
    ||| b[q].kind() == PieceType::Knight && bitboard::knight_hits(s, q)
    ||| (pc.kind() == PieceType::Knight || pc.kind() == PieceType::Rook) && (bitboard::pawn_hits(
        Color::White,
        s,
        q,
    ) && b[q] == Piece::B_PAWN || bitboard::pawn_hits(Color::Black, s, q) && b[q] == Piece::W_PAWN)
    ||| with_sliders && bears_on(b, s, q) && (pc.kind() == PieceType::Queen ==> b[q].kind()
        == PieceType::Queen)
}

/// The threats of `pc` on `s` itself.
pub open spec fn outgoing(b: Seq<Piece>, pc: Piece, put: bool, s: int) -> Seq<DirtyThreat> {
    movegen::squares(|t: int| threatens(b, pc, s, t)).map_values(
        |t: int| packed(put, pc, b[t], s, t),
    )
}

/// The threats against `pc` on `s`.
pub open spec fn incoming(b: Seq<Piece>, pc: Piece, put: bool, s: int, with_sliders: bool) -> Seq<
    DirtyThreat,
> {
    movegen::squares(|q: int| threatened_by(b, pc, s, with_sliders, q)).map_values(
        |q: int| packed(put, b[q], pc, q, s),
    )
}

/// What all the sliders that bear on `s` gain or lose.
pub open spec fn all_sliders(
    b: Seq<Piece>,
    pc: Piece,
    put: bool,
    s: int,
    no_rays: u64,
    direct: bool,
) -> Seq<DirtyThreat> {
    let qs = movegen::squares(|q: int| bears_on(b, s, q));
    slider_changes(b, pc, put, s, no_rays, direct, qs, qs.len() as int)
}

/// Every threat that putting or removing `pc` on `s` changes, in the order in which it is
/// recorded. A king is neither attacker nor target, so that only the sliders behind it change.
pub open spec fn threat_changes(
    b: Seq<Piece>,
    pc: Piece,
    put: bool,
    s: int,
    no_rays: u64,
    rays: bool,
) -> Seq<DirtyThreat> {
    if pc.kind() == PieceType::King {
        if rays {
            all_sliders(b, pc, put, s, no_rays, false)
        } else {
            Seq::empty()
        }
    } else if rays {
        outgoing(b, pc, put, s) + all_sliders(b, pc, put, s, no_rays, true) + incoming(
            b,
            pc,
            put,
            s,
            false,
        )
    } else {
        outgoing(b, pc, put, s) + incoming(b, pc, put, s, true)
    }
}

// ---------------------------------------------------------------------------
// Recording the changes
// ---------------------------------------------------------------------------

/// Count a threatened queen only when the slider is itself a queen.
fn can_slider_threat(pc: Piece, slider: Piece) -> (r: bool)
    ensures
        r == slider_counts(pc, slider),
{
    pc.piece_type() != PieceType::Queen || slider.piece_type() == PieceType::Queen
}

/// The men that are not kings.
fn men(board: &Board) -> (r: Bitboard)
    requires
        board.wf(),
    ensures
        forall|t: int| #[trigger] r.has(t) == (0 <= t < 64 && is_man(board@, t)),
{
    broadcast use bits::group_bits;

    board.occupied() ^ board.pieces(PieceType::King)
}

/// Record what one slider gains or loses.
fn process_slider(
    board: &Board,
    out: &mut Vec<DirtyThreat>,
    q: Square,
    s: Square,
    pc: Piece,
    put: bool,
    no_rays: Bitboard,
    direct: bool,
)
    requires
        board.wf(),
    ensures
        final(out)@ == old(out)@ + slider_change(
            board@,
            pc,
            put,
            s.idx(),
            no_rays.0,
            direct,
            q.idx(),
        ),
{
    proof {
        reveal(slider_change);
    }
    broadcast use {bits::group_bits, Square::lemma_idx};

    let ghost b = board@;
    let ghost start = out@;
    let slider = board.piece_on(q);
    let ray = ray_pass_bb(q, s);
    let (diagonal, straight) = both_attacks_bb(s, board.occupied());
    let hidden = (ray & (straight | diagonal)) & men(board);
    let seen = ray & no_rays;
    proof {
        movegen::lemma_squares(hidden.0, |t: int| hidden_man(b, s.idx(), q.idx(), t));
        bits::lemma_members_empty(hidden.0);
        if seen == no_rays {
            assert forall|i: int| #[trigger] bits::bit(no_rays.0, i) implies attacks::on_common_ray(
                q.idx(),
                s.idx(),
                i,
            ) by {
                assert(seen.has(i));
                assert(ray.has(i));
            }
        }
        if ray_holds(no_rays.0, q.idx(), s.idx()) {
            assert forall|i: int| 0 <= i < 64 implies #[trigger] bits::bit(seen.0, i) == bits::bit(
                no_rays.0,
                i,
            ) by {
                assert(ray.has(i) == attacks::on_common_ray(q.idx(), s.idx(), i));
            }
            bits::lemma_ext(seen.0, no_rays.0);
        }
    }
    if hidden.any() && seen != no_rays {
        let mut rest = hidden;
        let t = rest.pop_lsb();
        let man = board.piece_on(t);
        if can_slider_threat(man, slider) {
            out.push(DirtyThreat::new(!put, slider, man, q, t));
        }
    }
    let ghost middle = out@;
    if direct && can_slider_threat(pc, slider) {
        out.push(DirtyThreat::new(put, slider, pc, q, s));
    }
    assert(out@ =~= start + slider_change(b, pc, put, s.idx(), no_rays.0, direct, q.idx()));
}

/// Walk the sliders that bear on `s` and record what they gain or lose.
///
/// A man on `s` blocks the ray: take it away and the slider reaches the next man along, so
/// that a placement removes that threat and a removal creates it. With `direct`, the slider
/// threatens the placed piece itself.
fn process_sliders(
    board: &Board,
    out: &mut Vec<DirtyThreat>,
    sliders: Bitboard,
    s: Square,
    pc: Piece,
    put: bool,
    no_rays: Bitboard,
    direct: bool,
)
    requires
        board.wf(),
    ensures
        final(out)@ == old(out)@ + slider_changes(
            board@,
            pc,
            put,
            s.idx(),
            no_rays.0,
            direct,
            sliders.members(),
            sliders.members().len() as int,
        ),
{
    let ghost b = board@;
    let ghost qs = sliders.members();
    let ghost start = out@;
    let mut rest = sliders;
    let ghost mut n: int = 0;
    proof {
        bits::lemma_members(rest.0);
        assert(qs.subrange(0, qs.len() as int) =~= qs);
        assert(start + slider_changes(b, pc, put, s.idx(), no_rays.0, direct, qs, 0) =~= start);
    }
    while rest.any()
        invariant
            board.wf(),
            b == board@,
            0 <= n <= qs.len(),
            rest.members() == qs.subrange(n, qs.len() as int),
            out@ == start + slider_changes(b, pc, put, s.idx(), no_rays.0, direct, qs, n),
        decreases qs.len() - n,
    {
        proof {
            bits::lemma_members_empty(rest.0);
        }
        let q = rest.pop_lsb();
        let ghost before = out@;
        process_slider(board, out, q, s, pc, put, no_rays, direct);
        proof {
            assert(q.idx() == qs[n]);
            n = n + 1;
            assert(rest.members() =~= qs.subrange(n, qs.len() as int));
            assert(out@ =~= start + slider_changes(
                b,
                pc,
                put,
                s.idx(),
                no_rays.0,
                direct,
                qs,
                n,
            ));
        }
    }
    proof {
        bits::lemma_members_empty(rest.0);
    }
}

/// The squares that `pc` on `s` threatens.
pub fn threatened_squares(board: &Board, pc: Piece, s: Square) -> (r: Bitboard)
    requires
        board.wf(),
    ensures
        forall|t: int| #[trigger]
            r.has(t) == (0 <= t < 64 && threatens(board@, pc, s.idx(), t)),
{
    broadcast use bits::group_bits;

    let occupied = board.occupied();
    let raw = match pc.piece_type() {
        PieceType::Pawn => pawn_attacks_from(pc.color(), s),
        PieceType::Knight => piece_attacks(PieceType::Knight, s, occupied),
        PieceType::Bishop => piece_attacks(PieceType::Bishop, s, occupied),
        PieceType::Rook => piece_attacks(PieceType::Rook, s, occupied),
        PieceType::Queen => piece_attacks(PieceType::Queen, s, occupied),
        PieceType::King => piece_attacks(PieceType::King, s, occupied),
        PieceType::NoType => Bitboard(0),
    };
    let all = men(board);
    let targets = match pc.piece_type() {
        PieceType::Pawn => board.pieces(PieceType::Knight) | board.pieces(PieceType::Rook),
        PieceType::Bishop | PieceType::Rook => (board.pieces(PieceType::Pawn) | board.pieces(
            PieceType::Knight,
        )) | (board.pieces(PieceType::Bishop) | board.pieces(PieceType::Rook)),
        _ => all,
    };
    (raw & all) & targets
}

/// The squares of the pieces that threaten `pc` on `s`.
fn threatening_squares(
    board: &Board,
    pc: Piece,
    s: Square,
    sliders: Bitboard,
    with_sliders: bool,
) -> (r: Bitboard)
    requires
        board.wf(),
        forall|q: int| #[trigger]
            sliders.has(q) == (0 <= q < 64 && bears_on(board@, s.idx(), q)),
    ensures
        forall|q: int| #[trigger]
            r.has(q) == (0 <= q < 64 && threatened_by(
                board@,
                pc,
                s.idx(),
                with_sliders,
                q,
            )),
{
    broadcast use bits::group_bits;

    let mut r = knight_attacks(s) & board.pieces(PieceType::Knight);
    if pc.piece_type() == PieceType::Knight || pc.piece_type() == PieceType::Rook {
        let by_black = pawn_attacks_from(Color::White, s) & board.pieces_of(
            Color::Black,
            PieceType::Pawn,
        );
        let by_white = pawn_attacks_from(Color::Black, s) & board.pieces_of(
            Color::White,
            PieceType::Pawn,
        );
        r = r | (by_black | by_white);
    }
    if with_sliders {
        let direct = if pc.piece_type() == PieceType::Queen {
            sliders & board.pieces(PieceType::Queen)
        } else {
            sliders
        };
        r = r | direct;
    }
    r
}

/// Append every threat that putting or removing `pc` at `s` changes. The piece stands on the
/// board at `s` while this runs.
///
/// `rays` is false for the two halves of a promotion, where the effects on the rays cancel.
/// `no_rays` holds the two squares of a moving piece: a slider that looks along the line of the
/// move neither gains nor loses. Its neutral value is the full board, since a ray that holds
/// every member of `no_rays` is left out, and every ray holds the empty set.
pub fn record_placement(
    board: &Board,
    pc: Piece,
    put: bool,
    s: Square,
    out: &mut Vec<DirtyThreat>,
    no_rays: Bitboard,
    rays: bool,
)
    requires
        board.wf(),
    ensures
        final(out)@ == old(out)@ + threat_changes(
            board@,
            pc,
            put,
            s.idx(),
            no_rays.0,
            rays,
        ),
{
    broadcast use bits::group_bits;

    let ghost b = board@;
    let ghost start = out@;
    let (diagonal, straight) = both_attacks_bb(s, board.occupied());
    let rook_queens = board.pieces(PieceType::Rook) | board.pieces(PieceType::Queen);
    let bishop_queens = board.pieces(PieceType::Bishop) | board.pieces(PieceType::Queen);
    let sliders = (rook_queens & straight) | (bishop_queens & diagonal);
    proof {
        assert forall|q: int| #[trigger]
            sliders.has(q) == (0 <= q < 64 && bears_on(b, s.idx(), q)) by {}
        movegen::lemma_squares(sliders.0, |q: int| bears_on(b, s.idx(), q));
    }
    if pc.piece_type() == PieceType::King {
        if rays {
            process_sliders(board, out, sliders, s, pc, put, no_rays, false);
        }
        assert(out@ =~= start + threat_changes(b, pc, put, s.idx(), no_rays.0, rays));
        return;
    }
    let threatened = threatened_squares(board, pc, s);
    push_outgoing(board, out, threatened, s, pc, put);
    proof {
        movegen::lemma_squares(threatened.0, |t: int| threatens(b, pc, s.idx(), t));
        assert(out@ =~= start + outgoing(b, pc, put, s.idx()));
    }
    let ghost middle = out@;
    if rays {
        process_sliders(board, out, sliders, s, pc, put, no_rays, true);
    }
    let ghost late = out@;
    let foes = threatening_squares(board, pc, s, sliders, !rays);
    push_incoming(board, out, foes, s, pc, put);
    proof {
        movegen::lemma_squares(foes.0, |q: int| threatened_by(b, pc, s.idx(), !rays, q));
        assert(out@ =~= late + incoming(b, pc, put, s.idx(), !rays));
        assert(out@ =~= start + threat_changes(b, pc, put, s.idx(), no_rays.0, rays));
    }
}

/// Append every threat that putting or removing `pc` at `s` changes in a position. The piece
/// stands on the board at `s` while this runs.
pub fn update_piece_threats(
    pos: &Position,
    pc: Piece,
    put: bool,
    s: Square,
    out: &mut Vec<DirtyThreat>,
    no_rays: Bitboard,
    rays: bool,
)
    requires
        pos.sound(),
    ensures
        final(out)@ == old(out)@ + threat_changes(
            pos.board@,
            pc,
            put,
            s.idx(),
            no_rays.0,
            rays,
        ),
{
    record_placement(&pos.board, pc, put, s, out, no_rays, rays);
}

/// Record the threats of `pc` on `s` against the men on `set`.
fn push_outgoing(
    board: &Board,
    out: &mut Vec<DirtyThreat>,
    set: Bitboard,
    s: Square,
    pc: Piece,
    put: bool,
)
    ensures
        final(out)@ == old(out)@ + set.members().map_values(
            |t: int| packed(put, pc, board@[t], s.idx(), t),
        ),
{
    let ghost ts = set.members();
    let ghost start = out@;
    let ghost f = |t: int| packed(put, pc, board@[t], s.idx(), t);
    let mut rest = set;
    let ghost mut n: int = 0;
    proof {
        assert(ts.subrange(0, ts.len() as int) =~= ts);
        assert(start + ts.subrange(0, 0).map_values(f) =~= start);
    }
    while rest.any()
        invariant
            0 <= n <= ts.len(),
            f == (|t: int| packed(put, pc, board@[t], s.idx(), t)),
            rest.members() == ts.subrange(n, ts.len() as int),
            out@ == start + ts.subrange(0, n).map_values(f),
        decreases ts.len() - n,
    {
        proof {
            bits::lemma_members_empty(rest.0);
        }
        let t = rest.pop_lsb();
        out.push(DirtyThreat::new(put, pc, board.piece_on(t), s, t));
        proof {
            assert(t.idx() == ts[n]);
            n = n + 1;
            assert(rest.members() =~= ts.subrange(n, ts.len() as int));
            assert(out@ =~= start + ts.subrange(0, n).map_values(f));
        }
    }
    proof {
        bits::lemma_members_empty(rest.0);
        assert(ts.subrange(0, n) =~= ts);
    }
}

/// Record the threats of the pieces on `set` against `pc` on `s`.
fn push_incoming(
    board: &Board,
    out: &mut Vec<DirtyThreat>,
    set: Bitboard,
    s: Square,
    pc: Piece,
    put: bool,
)
    ensures
        final(out)@ == old(out)@ + set.members().map_values(
            |q: int| packed(put, board@[q], pc, q, s.idx()),
        ),
{
    let ghost qs = set.members();
    let ghost start = out@;
    let ghost f = |q: int| packed(put, board@[q], pc, q, s.idx());
    let mut rest = set;
    let ghost mut n: int = 0;
    proof {
        assert(qs.subrange(0, qs.len() as int) =~= qs);
        assert(start + qs.subrange(0, 0).map_values(f) =~= start);
    }
    while rest.any()
        invariant
            0 <= n <= qs.len(),
            f == (|q: int| packed(put, board@[q], pc, q, s.idx())),
            rest.members() == qs.subrange(n, qs.len() as int),
            out@ == start + qs.subrange(0, n).map_values(f),
        decreases qs.len() - n,
    {
        proof {
            bits::lemma_members_empty(rest.0);
        }
        let q = rest.pop_lsb();
        out.push(DirtyThreat::new(put, board.piece_on(q), pc, q, s));
        proof {
            assert(q.idx() == qs[n]);
            n = n + 1;
            assert(rest.members() =~= qs.subrange(n, qs.len() as int));
            assert(out@ =~= start + qs.subrange(0, n).map_values(f));
        }
    }
    proof {
        bits::lemma_members_empty(rest.0);
        assert(qs.subrange(0, n) =~= qs);
    }
}

// ---------------------------------------------------------------------------
// Pawns
// ---------------------------------------------------------------------------

/// The pawns of both sides before and after a move, White's first.
#[derive(Clone, Copy, Debug, PartialEq, Eq)]
pub struct DirtyPawnPairs {
    pub before: [Bitboard; 2],
    pub after: [Bitboard; 2],
}

impl DirtyPawnPairs {
    /// The squares on which a pawn came or went.
    pub open spec fn touched(self) -> u64 {
        (self.before@[0].0 ^ self.after@[0].0) | (self.before@[1].0 ^ self.after@[1].0)
    }

    /// The move left the pawns where they were.
    pub fn is_unchanged(&self) -> (r: bool)
        ensures
            r == (self.before@[0] == self.after@[0] && self.before@[1] == self.after@[1]),
    {
        self.before[0].0 == self.after[0].0 && self.before[1].0 == self.after[1].0
    }
}

impl Default for DirtyPawnPairs {
    /// No pawns at all, before or after.
    fn default() -> (r: DirtyPawnPairs)
        ensures
            r.before@ == seq![Bitboard(0), Bitboard(0)],
            r.after@ == seq![Bitboard(0), Bitboard(0)],
    {
        let r = DirtyPawnPairs {
            before: [Bitboard(0), Bitboard(0)],
            after: [Bitboard(0), Bitboard(0)],
        };
        assert(r.before@ =~= seq![Bitboard(0), Bitboard(0)]);
        assert(r.after@ =~= seq![Bitboard(0), Bitboard(0)]);
        r
    }
}

} // verus!
