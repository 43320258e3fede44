//! Where the pieces stand.
//!
//! A [`Board`] keeps the same placement three times: piece by square, squares by piece type
//! and colour, and counts. Its view is the placement itself, a sequence of 64 pieces; `wf`
//! says that the other two agree with it.

use vstd::prelude::*;
use vstd::array::array_fill_for_copy_types;
use crate::board::attacks::{between_bb, bishop_attacks, rook_attacks};
use crate::board::attacks;
use crate::board::bitboard::{king_attacks, knight_attacks, pawn_attacks_from, Bitboard};
use crate::board::bits;
use crate::board::tally;
use crate::board::types::{Color, Piece, PieceType, Square};

verus! {

/// A placement of pieces.
#[derive(Clone, Copy, Debug)]
pub struct Board {
    /// The piece on each square.
    pub squares: [Piece; 64],
    /// Index 0 is the total occupancy, not an empty set.
    pub by_type: [Bitboard; 7],
    /// The squares each colour occupies.
    pub by_color: [Bitboard; 2],
    /// How many of each piece stand on the board.
    pub piece_count: [i32; 16],
}

impl View for Board {
    type V = Seq<Piece>;

    open spec fn view(&self) -> Seq<Piece> {
        self.squares@
    }
}

/// The word is the occupancy of the placement.
pub open spec fn occupies(b: Seq<Piece>, w: u64) -> bool {
    forall|i: int| 0 <= i < 64 ==> #[trigger] bits::bit(w, i) == (b[i] != Piece::NONE)
}

/// The occupancy of a placement.
pub open spec fn occ(b: Seq<Piece>) -> u64 {
    choose|w: u64| occupies(b, w)
}

/// Occupancies are unique.
pub proof fn lemma_occ(b: Seq<Piece>, w: u64)
    requires
        occupies(b, w),
    ensures
        occ(b) == w,
        occupies(b, occ(b)),
{
    let v = occ(b);
    assert(occupies(b, v));
    assert forall|i: int| 0 <= i < 64 implies #[trigger] bits::bit(v, i) == bits::bit(w, i) by {
        assert(bits::bit(w, i) == (b[i] != Piece::NONE));
    }
    bits::lemma_ext(v, w);
}

/// Every square holds a real piece or nothing.
pub open spec fn clean(b: Seq<Piece>) -> bool {
    &&& b.len() == 64
    &&& forall|i: int| 0 <= i < 64 ==> #[trigger] b[i] == Piece::NONE || b[i].is_real()
}

/// Square `i` is the first that holds the king of `c`.
pub open spec fn is_king_square(b: Seq<Piece>, c: Color, i: int) -> bool {
    &&& 0 <= i < 64
    &&& b[i] == Piece::of(c, PieceType::King)
    &&& forall|j: int| 0 <= j < i ==> #[trigger] b[j] != Piece::of(c, PieceType::King)
}

/// Where the king of `c` stands.
pub open spec fn king(b: Seq<Piece>, c: Color) -> int {
    choose|i: int| is_king_square(b, c, i)
}

/// Both colours have exactly one king.
pub open spec fn kings(b: Seq<Piece>) -> bool {
    &&& tally::count_of(b, Piece::W_KING) == 1
    &&& tally::count_of(b, Piece::B_KING) == 1
}

/// With one king of `c` on the board, its square is the one that holds it.
pub proof fn lemma_king(b: Seq<Piece>, c: Color)
    requires
        b.len() == 64,
        tally::count_of(b, Piece::of(c, PieceType::King)) >= 1,
    ensures
        is_king_square(b, c, king(b, c)),
        tally::count_of(b, Piece::of(c, PieceType::King)) == 1 ==> forall|i: int|
            0 <= i < 64 && #[trigger] b[i] == Piece::of(c, PieceType::King) ==> i == king(b, c),
{
    let k = Piece::of(c, PieceType::King);
    tally::lemma_count_bounds(b, k, 64);
    let i = choose|i: int| 0 <= i < 64 && b[i] == k;
    lemma_first_king(b, c, i);
    assert(exists|j: int| is_king_square(b, c, j));
    if tally::count_of(b, k) == 1 {
        assert forall|i: int| 0 <= i < 64 && #[trigger] b[i] == k implies i == king(b, c) by {
            if i != king(b, c) {
                tally::lemma_count_two(b, k, i, king(b, c));
            }
        }
    }
}

proof fn lemma_first_king(b: Seq<Piece>, c: Color, i: int)
    requires
        0 <= i < 64,
        b[i] == Piece::of(c, PieceType::King),
    ensures
        exists|j: int| is_king_square(b, c, j),
    decreases i,
{
    if forall|j: int| 0 <= j < i ==> #[trigger] b[j] != Piece::of(c, PieceType::King) {
        assert(is_king_square(b, c, i));
    } else {
        let j = choose|j: int| 0 <= j < i && #[trigger] b[j] == Piece::of(c, PieceType::King);
        lemma_first_king(b, c, j);
    }
}

/// The piece on `s` attacks `t` through occupancy `w`.
pub open spec fn attacks_through(b: Seq<Piece>, w: u64, s: int, t: int) -> bool {
    &&& 0 <= s < 64
    &&& b[s].is_real()
    &&& attacks::hits(b[s].side(), b[s].kind(), w, s, t)
}

/// Some piece of `c` attacks `t` through occupancy `w`.
pub open spec fn attacked(b: Seq<Piece>, w: u64, c: Color, t: int) -> bool {
    exists|s: int| #[trigger] attacks_through(b, w, s, t) && b[s].side() == c
}

/// The piece on `q` is a slider of `c` that would attack `s` on an empty board.
pub open spec fn sniper(b: Seq<Piece>, c: Color, s: int, q: int) -> bool {
    &&& 0 <= q < 64
    &&& b[q].is_real()
    &&& b[q].side() == c
    &&& {
        ||| attacks::rook_line(s, q) && (b[q].kind() == PieceType::Rook || b[q].kind()
            == PieceType::Queen)
        ||| attacks::bishop_line(s, q) && (b[q].kind() == PieceType::Bishop || b[q].kind()
            == PieceType::Queen)
    }
}

/// A piece on `u`, not itself a sniper, stands between `s` and the sniper on `q`.
pub open spec fn screens(b: Seq<Piece>, c: Color, s: int, q: int, u: int) -> bool {
    &&& attacks::between(s, u, q)
    &&& b[u] != Piece::NONE
    &&& !sniper(b, c, s, u)
}

/// The piece on `u` is the only one between `s` and the sniper on `q`.
pub open spec fn sole_screen(b: Seq<Piece>, c: Color, s: int, q: int, u: int) -> bool {
    &&& sniper(b, c, s, q)
    &&& screens(b, c, s, q, u)
    &&& forall|v: int| #[trigger] screens(b, c, s, q, v) ==> v == u
}

/// The piece on `u` is all that keeps some slider of `c` from attacking `s`.
pub open spec fn blocker(b: Seq<Piece>, c: Color, s: int, u: int) -> bool {
    exists|q: int| #[trigger] sole_screen(b, c, s, q, u)
}

/// The slider of `c` on `q` is kept from attacking `s` by one piece, of the colour of the
/// piece on `s`.
pub open spec fn pinner(b: Seq<Piece>, c: Color, s: int, q: int) -> bool {
    exists|u: int| #[trigger] sole_screen(b, c, s, q, u) && b[u].side() == b[s].side()
}

impl Board {
    /// The bitboards and the counts agree with the squares.
    pub open spec fn wf(&self) -> bool {
        &&& clean(self@)
        &&& occupies(self@, self.by_type@[0].0)
        &&& forall|pt: PieceType, i: int|
            #![trigger self.by_type@[pt.idx()].has(i)]
            pt != PieceType::NoType && 0 <= i < 64 ==> (self.by_type@[pt.idx()].has(i)
                == (self@[i].kind() == pt))
        &&& forall|c: Color, i: int|
            #![trigger self.by_color@[c.idx()].has(i)]
            0 <= i < 64 ==> self.by_color@[c.idx()].has(i) == (self@[i] != Piece::NONE && self@[i].side()
                == c)
        &&& forall|pc: Piece|
            #![trigger self.piece_count@[pc.code()]]
            pc.is_real() ==> self.piece_count@[pc.code()] == tally::count_of(self@, pc)
    }

    /// The empty board.
    pub fn empty() -> (r: Board)
        ensures
            r.wf(),
            r@ == Seq::new(64, |i: int| Piece::NONE),
    {
        let r = Board {
            squares: array_fill_for_copy_types::<Piece, 64>(Piece::NONE),
            by_type: array_fill_for_copy_types::<Bitboard, 7>(Bitboard(0)),
            by_color: array_fill_for_copy_types::<Bitboard, 2>(Bitboard(0)),
            piece_count: [0; 16],
        };
        proof {
            broadcast use bits::lemma_bit_zero;

            assert forall|pc: Piece| pc.is_real() implies #[trigger] r.piece_count@[pc.code()]
                == tally::count_of(r@, pc) by {
                tally::lemma_count_bounds(r@, pc, 64);
            }
            assert(r@ =~= Seq::new(64, |i: int| Piece::NONE));
        }
        r
    }

    /// The piece standing on `sq`.
    #[inline(always)]
    pub fn piece_on(&self, sq: Square) -> (r: Piece)
        ensures
            r == self@[sq.idx()],
    {
        self.squares[sq.index()]
    }

    /// Every occupied square.
    #[inline(always)]
    pub fn occupied(&self) -> (r: Bitboard)
        requires
            self.wf(),
        ensures
            r.0 == occ(self@),
            occupies(self@, r.0),
            forall|i: int| #[trigger] r.has(i) == (0 <= i < 64 && self@[i] != Piece::NONE),
    {
        proof {
            broadcast use bits::lemma_bit_range;

            lemma_occ(self@, self.by_type@[0].0);
        }
        self.by_type[0]
    }

    /// Every piece of type `pt`, both colours; for `NoType`, every occupied square.
    #[inline(always)]
    pub fn pieces(&self, pt: PieceType) -> (r: Bitboard)
        requires
            self.wf(),
        ensures
            pt != PieceType::NoType ==> forall|i: int| #[trigger]
                r.has(i) == (0 <= i < 64 && self@[i].kind() == pt),
            pt == PieceType::NoType ==> forall|i: int| #[trigger]
                r.has(i) == (0 <= i < 64 && self@[i] != Piece::NONE),
    {
        broadcast use bits::lemma_bit_range;

        self.by_type[pt.index()]
    }

    /// Every piece of `c`.
    #[inline(always)]
    pub fn colored(&self, c: Color) -> (r: Bitboard)
        requires
            self.wf(),
        ensures
            forall|i: int| #[trigger]
                r.has(i) == (0 <= i < 64 && self@[i] != Piece::NONE && self@[i].side() == c),
    {
        broadcast use bits::lemma_bit_range;

        self.by_color[c.index()]
    }

    /// Every piece of `c` and type `pt`; for `NoType`, every piece of `c`.
    #[inline(always)]
    pub fn pieces_of(&self, c: Color, pt: PieceType) -> (r: Bitboard)
        requires
            self.wf(),
        ensures
            pt != PieceType::NoType ==> forall|i: int| #[trigger]
                r.has(i) == (0 <= i < 64 && self@[i] == Piece::of(c, pt)),
            pt == PieceType::NoType ==> forall|i: int| #[trigger]
                r.has(i) == (0 <= i < 64 && self@[i] != Piece::NONE && self@[i].side() == c),
    {
        broadcast use bits::group_bits;

        self.colored(c) & self.pieces(pt)
    }

    /// Every piece of `c` and either of two types.
    #[inline(always)]
    pub fn pieces_of2(&self, c: Color, a: PieceType, b: PieceType) -> (r: Bitboard)
        requires
            self.wf(),
            a != PieceType::NoType,
            b != PieceType::NoType,
        ensures
            forall|i: int| #[trigger]
                r.has(i) == (0 <= i < 64 && (self@[i] == Piece::of(c, a) || self@[i] == Piece::of(
                    c,
                    b,
                ))),
    {
        broadcast use bits::group_bits;

        self.colored(c) & (self.pieces(a) | self.pieces(b))
    }

    /// How many pieces of `c` and type `pt` are on the board.
    #[inline(always)]
    pub fn count(&self, c: Color, pt: PieceType) -> (r: i32)
        requires
            self.wf(),
            pt != PieceType::NoType,
        ensures
            r == tally::count_of(self@, Piece::of(c, pt)),
            0 <= r <= 64,
    {
        proof {
            tally::lemma_count_bounds(self@, Piece::of(c, pt), 64);
        }
        self.piece_count[Piece::new(c, pt).index()]
    }

    /// `c`'s king square.
    #[inline(always)]
    pub fn king_square(&self, c: Color) -> (r: Square)
        requires
            self.wf(),
            tally::count_of(self@, Piece::of(c, PieceType::King)) >= 1,
        ensures
            r.idx() == king(self@, c),
            is_king_square(self@, c, r.idx()),
    {
        let b = self.pieces_of(c, PieceType::King);
        proof {
            lemma_king(self@, c);
            assert(b.has(king(self@, c)));
            bits::lemma_member_nonzero(b.0, king(self@, c));
        }
        let r = b.lsb();
        proof {
            broadcast use Square::lemma_idx;

            let k = king(self@, c);
            assert(b.has(k) && k >= r.idx());
            assert(b.has(r.idx()));
            assert(self@[r.idx()] == Piece::of(c, PieceType::King));
            assert(r.idx() == k);
        }
        r
    }

    /// Put `pc` on the empty square `sq`.
    pub fn put_piece(&mut self, pc: Piece, sq: Square)
        requires
            old(self).wf(),
            pc.is_real(),
            old(self)@[sq.idx()] == Piece::NONE,
        ensures
            final(self).wf(),
            final(self)@ == old(self)@.update(sq.idx(), pc),
    {
        broadcast use {bits::group_bits, Square::lemma_idx};

        let t = pc.piece_type().index();
        let c = pc.color().index();
        let ghost before = *self;
        proof {
            tally::lemma_count_bounds(self@, pc, 64);
        }
        self.squares[sq.index()] = pc;
        self.by_type[0] = self.by_type[0] | Bitboard::from_square(sq);
        self.by_type[t] = self.by_type[t] | Bitboard::from_square(sq);
        self.by_color[c] = self.by_color[c] | Bitboard::from_square(sq);
        self.piece_count[pc.index()] = self.piece_count[pc.index()] + 1;
        proof {
            let s = sq.idx();
            assert forall|p: Piece| p.is_real() implies #[trigger] self.piece_count@[p.code()]
                == tally::count_of(self@, p) by {
                tally::lemma_count_update(before@, p, s, pc, 64);
                assert(before.piece_count@[p.code()] == tally::count_of(before@, p));
                if p.code() == pc.code() {
                    assert(p == pc);
                }
            }
            assert forall|pt: PieceType, i: int|
                pt != PieceType::NoType && 0 <= i < 64 implies #[trigger] self.by_type@[pt.idx()].has(i)
                == (self@[i].kind() == pt) by {
                assert(before.by_type@[pt.idx()].has(i) == (before@[i].kind() == pt));
            }
            assert forall|d: Color, i: int| 0 <= i < 64 implies #[trigger] self.by_color@[d.idx()].has(i)
                == (self@[i] != Piece::NONE && self@[i].side() == d) by {
                assert(before.by_color@[d.idx()].has(i) == (before@[i] != Piece::NONE
                    && before@[i].side() == d));
            }
            assert forall|i: int| 0 <= i < 64 implies #[trigger] bits::bit(self.by_type@[0].0, i) == (self@[i]
                != Piece::NONE) by {
                assert(bits::bit(before.by_type@[0].0, i) == (before@[i] != Piece::NONE));
            }
        }
    }

    /// Take the piece on `sq` off the board.
    pub fn remove_piece(&mut self, sq: Square)
        requires
            old(self).wf(),
            old(self)@[sq.idx()] != Piece::NONE,
        ensures
            final(self).wf(),
            final(self)@ == old(self)@.update(sq.idx(), Piece::NONE),
    {
        broadcast use {bits::group_bits, Square::lemma_idx};

        let pc = self.squares[sq.index()];
        let t = pc.piece_type().index();
        let c = pc.color().index();
        let ghost before = *self;
        proof {
            tally::lemma_count_bounds(self@, pc, 64);
        }
        self.by_type[0] = self.by_type[0] ^ Bitboard::from_square(sq);
        self.by_type[t] = self.by_type[t] ^ Bitboard::from_square(sq);
        self.by_color[c] = self.by_color[c] ^ Bitboard::from_square(sq);
        self.squares[sq.index()] = Piece::NONE;
        self.piece_count[pc.index()] = self.piece_count[pc.index()] - 1;
        proof {
            let s = sq.idx();
            assert forall|p: Piece| p.is_real() implies #[trigger] self.piece_count@[p.code()]
                == tally::count_of(self@, p) by {
                tally::lemma_count_update(before@, p, s, Piece::NONE, 64);
                assert(before.piece_count@[p.code()] == tally::count_of(before@, p));
                if p.code() == pc.code() {
                    assert(p == pc);
                }
            }
            assert forall|pt: PieceType, i: int|
                pt != PieceType::NoType && 0 <= i < 64 implies #[trigger] self.by_type@[pt.idx()].has(i)
                == (self@[i].kind() == pt) by {
                assert(before.by_type@[pt.idx()].has(i) == (before@[i].kind() == pt));
            }
            assert forall|d: Color, i: int| 0 <= i < 64 implies #[trigger] self.by_color@[d.idx()].has(i)
                == (self@[i] != Piece::NONE && self@[i].side() == d) by {
                assert(before.by_color@[d.idx()].has(i) == (before@[i] != Piece::NONE
                    && before@[i].side() == d));
            }
            assert forall|i: int| 0 <= i < 64 implies #[trigger] bits::bit(self.by_type@[0].0, i) == (self@[i]
                != Piece::NONE) by {
                assert(bits::bit(before.by_type@[0].0, i) == (before@[i] != Piece::NONE));
            }
        }
    }

    /// Move the piece on `from` to the empty square `to`.
    pub fn move_piece(&mut self, from: Square, to: Square)
        requires
            old(self).wf(),
            old(self)@[from.idx()] != Piece::NONE,
            old(self)@[to.idx()] == Piece::NONE,
        ensures
            final(self).wf(),
            final(self)@ == old(self)@.update(from.idx(), Piece::NONE).update(
                to.idx(),
                old(self)@[from.idx()],
            ),
    {
        broadcast use Square::lemma_idx;

        let pc = self.squares[from.index()];
        self.remove_piece(from);
        self.put_piece(pc, to);
    }

    /// Pieces of either colour that attack `sq` through occupancy `w`.
    ///
    /// The occupancy is an argument so that an exchange can be replayed by removing pieces
    /// from a local occupancy rather than from the board.
    pub fn attackers_to_occ(&self, sq: Square, w: Bitboard) -> (r: Bitboard)
        requires
            self.wf(),
        ensures
            forall|s: int| #[trigger] r.has(s) == attacks_through(self@, w.0, s, sq.idx()),
    {
        broadcast use {bits::group_bits, Square::lemma_idx};

        let wp = pawn_attacks_from(Color::Black, sq) & self.pieces_of(Color::White, PieceType::Pawn);
        let bp = pawn_attacks_from(Color::White, sq) & self.pieces_of(Color::Black, PieceType::Pawn);
        let kn = knight_attacks(sq) & self.pieces(PieceType::Knight);
        let queens = self.pieces(PieceType::Queen);
        let rk = rook_attacks(sq, w) & (self.pieces(PieceType::Rook) | queens);
        let bi = bishop_attacks(sq, w) & (self.pieces(PieceType::Bishop) | queens);
        let kg = king_attacks(sq) & self.pieces(PieceType::King);
        let r = wp | bp | kn | rk | bi | kg;
        proof {
            assert forall|s: int| #[trigger] r.has(s) == attacks_through(self@, w.0, s, sq.idx()) by {
                attacks::law_slider_attacks_are_symmetric(w.0, sq.idx(), s);
                assert(r.has(s) == (wp.has(s) || bp.has(s) || kn.has(s) || rk.has(s) || bi.has(s)
                    || kg.has(s)));
            }
        }
        r
    }

    /// Pieces that stand between `sq` and a slider of colour `c`, plus those sliders.
    ///
    /// A blocker of either colour is returned: an own blocker is pinned, an enemy blocker
    /// could deliver a discovered check by moving.
    #[verifier::loop_isolation(false)]
    pub fn slider_blockers(&self, c: Color, sq: Square) -> (r: (Bitboard, Bitboard))
        requires
            self.wf(),
        ensures
            forall|u: int| #[trigger] r.0.has(u) == blocker(self@, c, sq.idx(), u),
            forall|q: int| #[trigger] r.1.has(q) == pinner(self@, c, sq.idx(), q),
    {
        broadcast use {bits::group_bits, Square::lemma_idx};

        let ghost b = self@;
        let ghost s = sq.idx();
        let queens = self.pieces(PieceType::Queen);
        let along = rook_attacks(sq, Bitboard(0)) & (queens | self.pieces(PieceType::Rook));
        let across = bishop_attacks(sq, Bitboard(0)) & (queens | self.pieces(PieceType::Bishop));
        let snipers = (along | across) & self.colored(c);
        let occupancy = self.occupied() ^ snipers;
        let own = self.colored(self.piece_on(sq).color());
        proof {
            assert forall|q: int| #[trigger] snipers.has(q) == sniper(b, c, s, q) by {
                assert(attacks::clear(0, s, q));
            }
        }
        let mut blockers = Bitboard(0);
        let mut pinners = Bitboard(0);
        let mut left = snipers;
        while left.0 != 0
            invariant
                forall|q: int| #[trigger] left.has(q) ==> snipers.has(q),
                forall|u: int| #[trigger]
                    blockers.has(u) <==> exists|q: int|
                        !left.has(q) && #[trigger] sole_screen(b, c, s, q, u),
                forall|q: int| #[trigger]
                    pinners.has(q) <==> !left.has(q) && pinner(b, c, s, q),
            decreases left.members().len(),
        {
            let ghost before = left;
            let ghost blockers0 = blockers;
            let ghost pinners0 = pinners;
            let q = left.pop_lsb();
            let between = between_bb(sq, q) & occupancy;
            proof {
                assert forall|u: int| #[trigger] between.has(u) == screens(b, c, s, q.idx(), u) by {}
            }
            let single = between.exactly_one();
            proof {
                bits::lemma_members(between.0);
            }
            if single {
                let ghost w = between.members()[0];
                blockers = blockers | between;
                if (between & own).any() {
                    pinners.set(q);
                }
                proof {
                    assert(sole_screen(b, c, s, q.idx(), w)) by {
                        assert(between.has(w));
                        assert forall|v: int| #[trigger] screens(b, c, s, q.idx(), v) implies v == w by {
                            assert(between.has(v));
                        }
                    }
                    assert forall|u: int| sole_screen(b, c, s, q.idx(), u) implies u == w by {
                        assert(screens(b, c, s, q.idx(), u));
                    }
                    assert forall|u: int| #[trigger]
                        blockers.has(u) <==> exists|p: int|
                            !left.has(p) && #[trigger] sole_screen(b, c, s, p, u) by {
                        assert(blockers.has(u) == (blockers0.has(u) || between.has(u)));
                        if between.has(u) {
                            assert(u == w);
                            assert(!left.has(q.idx()) && sole_screen(b, c, s, q.idx(), u));
                        }
                        if blockers0.has(u) {
                            let p = choose|p: int| !before.has(p) && #[trigger] sole_screen(b, c, s, p, u);
                            assert(!left.has(p));
                        }
                    }
                    let bo = Bitboard(between.0 & own.0);
                    bits::lemma_nonzero(bo.0);
                    assert((bo.0 != 0) == (b[w].side() == b[s].side())) by {
                        assert(between.has(w));
                        assert(b[w] != Piece::NONE);
                        if b[w].side() == b[s].side() {
                            assert(bo.has(w));
                        }
                        if exists|i: int| bits::bit(bo.0, i) {
                            let i = choose|i: int| bits::bit(bo.0, i);
                            assert(between.has(i));
                            assert(i == w);
                        }
                    }
                }
            } else {
                proof {
                    assert forall|u: int| !sole_screen(b, c, s, q.idx(), u) by {
                        if sole_screen(b, c, s, q.idx(), u) {
                            assert(between.has(u));
                            let k = choose|k: int|
                                0 <= k < between.members().len() && between.members()[k] == u;
                            let k2: int = if k == 0 {
                                1
                            } else {
                                0
                            };
                            assert(between.has(between.members()[k2]));
                            assert(screens(b, c, s, q.idx(), between.members()[k2]));
                        }
                    }
                    assert forall|u: int| #[trigger]
                        blockers.has(u) <==> exists|p: int|
                            !left.has(p) && #[trigger] sole_screen(b, c, s, p, u) by {
                        if blockers0.has(u) {
                            let p = choose|p: int| !before.has(p) && #[trigger] sole_screen(b, c, s, p, u);
                            assert(!left.has(p));
                        }
                    }
                }
            }
        }
        proof {
            assert forall|u: int| #[trigger] blockers.has(u) == blocker(b, c, s, u) by {
                if blocker(b, c, s, u) {
                    let q = choose|q: int| #[trigger] sole_screen(b, c, s, q, u);
                    assert(!left.has(q));
                }
            }
        }
        (blockers, pinners)
    }
}

} // verus!
