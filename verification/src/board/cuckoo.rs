//! Cuckoo tables: which single reversible move would lead back to a given position.
//!
//! Two positions that differ by one reversible move differ in their keys by that move's key
//! delta. The tables hold every such delta, so that the question takes two probes. A key has
//! two places, one for each of two hashes; an insertion that finds its place taken evicts the
//! tenant to the tenant's other place. A walk that does not end within its bound leaves its
//! last tenant in an overflow list.

use vstd::prelude::*;
use crate::board::attacks::piece_attacks;
use crate::board::attacks;
use crate::board::bitboard::Bitboard;
use crate::board::types::{Color, Key, Move, MoveType, Piece, PieceType, Square};
use crate::board::types;
use crate::board::zobrist;

verus! {

/// Places in each table.
pub const SIZE: usize = 8192;

/// How many reversible moves there are.
pub const MOVE_COUNT: usize = 3668;

/// The longest walk of evictions.
pub const WALK_BOUND: u32 = 100_000;

/// What moving `pc` between two squares, and the turn with it, changes in a key.
pub open spec fn delta(pc: Piece, s1: int, s2: int) -> Key {
    (zobrist::psq_key(pc, s1) ^ zobrist::psq_key(pc, s2)) ^ zobrist::side_key()
}

/// The piece can travel between the two squares on an empty board, and travel back.
pub open spec fn can_return(pc: Piece, s1: int, s2: int) -> bool {
    &&& pc.is_real()
    &&& pc.kind() != PieceType::Pawn
    &&& 0 <= s1 < s2 < 64
    &&& attacks::hits(Color::White, pc.kind(), 0, s1, s2)
}

/// `m` is a reversible move of `pc` with the key delta `key`.
pub open spec fn undoes(pc: Piece, m: Move, key: Key) -> bool {
    &&& m == Move::pack(MoveType::Normal, m.src(), m.dst(), PieceType::Knight)
    &&& can_return(pc, m.src(), m.dst())
    &&& key == delta(pc, m.src(), m.dst())
}

/// `m` is a reversible move with the key delta `key`.
pub open spec fn reversible(m: Move, key: Key) -> bool {
    exists|pc: Piece| #[trigger] undoes(pc, m, key)
}

/// The first hash: the low bits of the key.
pub open spec fn first_place(key: Key) -> int {
    key as int % 8192
}

/// The second hash: the bits from the sixteenth on.
pub open spec fn second_place(key: Key) -> int {
    (key as int / 65536) % 8192
}

/// The first hash: the low bits of the key.
#[inline(always)]
pub fn h1(key: Key) -> (r: usize)
    ensures
        r == first_place(key),
        r < SIZE,
{
    (key % 8192) as usize
}

/// The second hash: bits apart from those of [`h1`].
#[inline(always)]
pub fn h2(key: Key) -> (r: usize)
    ensures
        r == second_place(key),
        r < SIZE,
{
    ((key / 65536) % 8192) as usize
}

/// The two parallel tables, a key and the move that produces it, and the overflow.
#[derive(Debug)]
pub struct Tables {
    pub key: Vec<Key>,
    pub mv: Vec<Move>,
    pub overflow: Vec<(Key, Move)>,
}

impl Tables {
    /// Place `i` is free.
    pub open spec fn free(&self, i: int) -> bool {
        self.mv@[i] == Move(0)
    }

    /// Every tenant is a reversible move in one of the two places of its key; a free place
    /// has the zero key.
    pub open spec fn wf(&self) -> bool {
        &&& self.key@.len() == SIZE
        &&& self.mv@.len() == SIZE
        &&& forall|i: int|
            0 <= i < SIZE ==> self.tenant_ok(#[trigger] self.key@[i], self.mv@[i], i)
        &&& forall|i: int|
            0 <= i < self.overflow@.len() ==> reversible(
                (#[trigger] self.overflow@[i]).1,
                self.overflow@[i].0,
            )
    }

    /// What place `i` may hold.
    pub open spec fn tenant_ok(&self, key: Key, m: Move, i: int) -> bool {
        if m == Move(0) {
            key == 0
        } else {
            reversible(m, key) && (first_place(key) == i || second_place(key) == i)
        }
    }

    /// The key is held in one of its places, or in the overflow.
    pub open spec fn holds(&self, key: Key) -> bool {
        ||| self.key@[first_place(key)] == key && !self.free(first_place(key))
        ||| self.key@[second_place(key)] == key && !self.free(second_place(key))
        ||| exists|i: int| 0 <= i < self.overflow@.len() && (#[trigger] self.overflow@[i]).0 == key
    }

    /// Every reversible move's key delta is held.
    pub open spec fn complete(&self) -> bool {
        forall|pc: Piece, s1: int, s2: int|
            can_return(pc, s1, s2) ==> self.holds(#[trigger] delta(pc, s1, s2))
    }
}

/// The overflow entries from `i` on, searched for `key`.
pub open spec fn overflowed(list: Seq<(Key, Move)>, key: Key, i: int) -> Option<Move>
    decreases list.len() - i,
{
    if i < 0 || i >= list.len() {
        None
    } else if list[i].0 == key {
        Some(list[i].1)
    } else {
        overflowed(list, key, i + 1)
    }
}

/// What the two places of a key, and the overflow, answer.
pub open spec fn probe(t: &Tables, key: Key) -> Option<Move> {
    if t.key@[first_place(key)] == key {
        Some(t.mv@[first_place(key)])
    } else if t.key@[second_place(key)] == key {
        Some(t.mv@[second_place(key)])
    } else {
        overflowed(t.overflow@, key, 0)
    }
}

proof fn lemma_overflowed(list: Seq<(Key, Move)>, key: Key, i: int)
    requires
        0 <= i,
    ensures
        overflowed(list, key, i) matches Some(m) ==> exists|j: int|
            i <= j < list.len() && #[trigger] list[j] == (key, m),
        overflowed(list, key, i).is_none() ==> forall|j: int|
            i <= j < list.len() ==> (#[trigger] list[j]).0 != key,
    decreases list.len() - i,
{
    if i < list.len() {
        lemma_overflowed(list, key, i + 1);
        if list[i].0 == key {
            assert(list[i] == (key, list[i].1));
        }
    }
}

/// Every key delta of a reversible move is answered with a reversible move of that delta,
/// and every answer to a key other than zero is such a move.
pub proof fn law_probes_answer_exactly(t: Tables, key: Key)
    requires
        t.wf(),
        t.complete(),
        key != 0,
    ensures
        probe(&t, key) matches Some(m) ==> reversible(m, key),
        probe(&t, key).is_none() ==> forall|m: Move| !#[trigger] reversible(m, key),
{
    lemma_overflowed(t.overflow@, key, 0);
    assert(t.tenant_ok(
        t.key@[first_place(key)],
        t.mv@[first_place(key)],
        first_place(key),
    ));
    assert(t.tenant_ok(
        t.key@[second_place(key)],
        t.mv@[second_place(key)],
        second_place(key),
    ));
    if probe(&t, key).is_none() {
        assert forall|m: Move| !#[trigger] reversible(m, key) by {
            if reversible(m, key) {
                let pc = choose|pc: Piece| #[trigger] undoes(pc, m, key);
                assert(t.holds(delta(pc, m.src(), m.dst())));
            }
        }
    }
}

/// Insert one move, evicting tenants as needed.
fn insert(t: &mut Tables, first_key: Key, first_move: Move)
    requires
        old(t).wf(),
        reversible(first_move, first_key),
    ensures
        final(t).wf(),
        final(t).holds(first_key),
        forall|k: Key| old(t).holds(k) ==> #[trigger] final(t).holds(k),
{
    let mut key: Key = first_key;
    let mut mv: Move = first_move;
    let mut i: usize = h1(key);
    let mut steps: u32 = 0;
    let ghost start = *t;
    while steps < WALK_BOUND
        invariant
            steps <= WALK_BOUND,
            t.wf(),
            i < SIZE,
            reversible(mv, key),
            i == first_place(key) || i == second_place(key),
            forall|k: Key| start.holds(k) || k == first_key ==> k == key || #[trigger] t.holds(k),
            start == *old(t),
        decreases WALK_BOUND - steps,
    {
        let ghost before = *t;
        let old_key: Key = t.key[i];
        let old_mv: Move = t.mv[i];
        t.key.set(i, key);
        t.mv.set(i, mv);
        proof {
            let pc = choose|pc: Piece| #[trigger] undoes(pc, mv, key);
            lemma_not_none(pc, mv, key);
            assert forall|j: int| 0 <= j < SIZE implies t.tenant_ok(
                #[trigger] t.key@[j],
                t.mv@[j],
                j,
            ) by {
                assert(before.tenant_ok(before.key@[j], before.mv@[j], j));
            }
            assert(t.holds(key));
            assert forall|k: Key| start.holds(k) || k == first_key implies (k == old_key && old_mv
                != Move(0)) || #[trigger] t.holds(k) by {
                if k != key {
                    assert(before.holds(k));
                    if exists|j: int|
                        0 <= j < before.overflow@.len() && (#[trigger] before.overflow@[j]).0 == k {
                        let j = choose|j: int|
                            0 <= j < before.overflow@.len() && (
                            #[trigger] before.overflow@[j]).0 == k;
                        assert(t.overflow@[j].0 == k);
                    } else {
                        let p = if before.key@[first_place(k)] == k && !before.free(
                            first_place(k),
                        ) {
                            first_place(k)
                        } else {
                            second_place(k)
                        };
                        assert(before.key@[p] == k && !before.free(p));
                        assert(p != i ==> t.key@[p] == k && !t.free(p));
                    }
                }
            }
            assert(before.tenant_ok(before.key@[i as int], before.mv@[i as int], i as int));
        }
        if old_mv.is_none() {
            return;
        }
        key = old_key;
        mv = old_mv;
        i = if i == h1(key) {
            h2(key)
        } else {
            h1(key)
        };
        steps += 1;
    }
    let ghost before = *t;
    t.overflow.push((key, mv));
    proof {
        let n = before.overflow@.len();
        assert(t.overflow@[n as int] == (key, mv));
        assert forall|k: Key| start.holds(k) || k == first_key implies #[trigger] t.holds(k) by {
            if k == key {
                assert(t.overflow@[n as int].0 == key);
            } else {
                assert(before.holds(k));
                if exists|j: int| 0 <= j < n && (#[trigger] before.overflow@[j]).0 == k {
                    let j = choose|j: int| 0 <= j < n && (#[trigger] before.overflow@[j]).0 == k;
                    assert(t.overflow@[j].0 == k);
                }
            }
        }
    }
}

/// A reversible move is not the empty move.
proof fn lemma_not_none(pc: Piece, m: Move, key: Key)
    requires
        undoes(pc, m, key),
    ensures
        m != Move(0),
{
    if m == Move(0) {
        assert(m.src() == 0 && m.dst() == 0);
    }
}

/// The tables of every reversible move. Pawns are left out, since their moves cannot be taken
/// back; each pair of squares is inserted once.
pub fn build(keys: &zobrist::Tables) -> (r: Tables)
    requires
        keys.wf(),
    ensures
        r.wf(),
        r.complete(),
{
    broadcast use {Square::lemma_idx, Square::lemma_inj};

    let mut t = Tables { key: Vec::new(), mv: Vec::new(), overflow: Vec::new() };
    while t.key.len() < SIZE
        invariant
            t.key@.len() <= SIZE,
            t.mv@.len() == t.key@.len(),
            t.overflow@.len() == 0,
            forall|i: int| 0 <= i < t.key@.len() ==> #[trigger] t.key@[i] == 0,
            forall|i: int| 0 <= i < t.mv@.len() ==> #[trigger] t.mv@[i] == Move(0),
        decreases SIZE - t.key@.len(),
    {
        t.key.push(0);
        t.mv.push(Move::none());
    }
    let mut code: u8 = 0;
    while code < 16
        invariant
            code <= 16,
            keys.wf(),
            t.wf(),
            forall|pc: Piece, s1: int, s2: int|
                can_return(pc, s1, s2) && pc.code() < code ==> t.holds(#[trigger] delta(pc, s1, s2)),
        decreases 16 - code,
    {
        let pc = Piece::from_raw(code);
        let ghost before = t;
        if pc.piece_type() != PieceType::NoType && pc.piece_type() != PieceType::Pawn {
            insert_piece(&mut t, keys, pc);
        }
        proof {
            assert forall|q: Piece, s1: int, s2: int|
                can_return(q, s1, s2) && q.code() < code + 1 implies t.holds(
                #[trigger] delta(q, s1, s2),
            ) by {
                if q.code() < code {
                    assert(before.holds(delta(q, s1, s2)));
                } else {
                    assert(q == pc);
                }
            }
        }
        code += 1;
    }
    t
}

/// Insert every reversible move of one piece.
fn insert_piece(t: &mut Tables, keys: &zobrist::Tables, pc: Piece)
    requires
        keys.wf(),
        old(t).wf(),
        pc.is_real(),
        pc.kind() != PieceType::Pawn,
    ensures
        final(t).wf(),
        forall|k: Key| old(t).holds(k) ==> #[trigger] final(t).holds(k),
        forall|s1: int, s2: int|
            can_return(pc, s1, s2) ==> final(t).holds(#[trigger] delta(pc, s1, s2)),
{
    broadcast use {Square::lemma_idx, Square::lemma_inj};

    let ghost start = *t;
    let mut a: usize = 0;
    while a < 64
        invariant
            a <= 64,
            keys.wf(),
            t.wf(),
            pc.is_real(),
            pc.kind() != PieceType::Pawn,
            start == *old(t),
            forall|k: Key| start.holds(k) ==> #[trigger] t.holds(k),
            forall|s1: int, s2: int|
                can_return(pc, s1, s2) && s1 < a ==> t.holds(#[trigger] delta(pc, s1, s2)),
        decreases 64 - a,
    {
        let s1 = Square::new(a);
        let reach = piece_attacks(pc.piece_type(), s1, Bitboard(0));
        let ghost before = *t;
        let mut b: usize = a + 1;
        while b < 64
            invariant
                a < 64,
                a + 1 <= b <= 64,
                s1.idx() == a,
                keys.wf(),
                t.wf(),
                pc.is_real(),
                pc.kind() != PieceType::Pawn,
                forall|k: Key| before.holds(k) ==> #[trigger] t.holds(k),
                forall|u: int| #[trigger]
                    reach.has(u) == attacks::hits(Color::White, pc.kind(), 0, a as int, u),
                forall|u: int|
                    can_return(pc, a as int, u) && u < b ==> t.holds(#[trigger] delta(pc, a as int, u)),
            decreases 64 - b,
        {
            broadcast use {Square::lemma_idx, Square::lemma_inj};

            let s2 = Square::new(b);
            let ghost here = *t;
            assert(reach.has(b as int) == can_return(pc, a as int, b as int));
            if reach.contains(s2) {
                let mv = Move::new(s1, s2);
                let key: Key = (keys.psq(pc, s1) ^ keys.psq(pc, s2)) ^ keys.side;
                proof {
                    types::law_move_fields(MoveType::Normal, s1, s2, PieceType::Knight);
                    assert(undoes(pc, mv, key));
                }
                insert(t, key, mv);
            }
            proof {
                assert forall|u: int|
                    can_return(pc, a as int, u) && u < b + 1 implies t.holds(
                    #[trigger] delta(pc, a as int, u),
                ) by {
                    if u < b {
                        assert(here.holds(delta(pc, a as int, u)));
                    }
                }
            }
            b += 1;
        }
        proof {
            assert forall|u1: int, u2: int|
                can_return(pc, u1, u2) && u1 < a + 1 implies t.holds(#[trigger] delta(pc, u1, u2)) by {
                if u1 < a {
                    assert(before.holds(delta(pc, u1, u2)));
                }
            }
        }
        a += 1;
    }
}

/// The move whose key delta is `key`, if the tables hold one. For most keys they do not.
pub fn lookup(t: &Tables, key: Key) -> (r: Option<Move>)
    requires
        t.wf(),
    ensures
        r == probe(t, key),
{
    let i = h1(key);
    if t.key[i] == key {
        return Some(t.mv[i]);
    }
    let j = h2(key);
    if t.key[j] == key {
        return Some(t.mv[j]);
    }
    let mut n: usize = 0;
    while n < t.overflow.len()
        invariant
            n <= t.overflow@.len(),
            overflowed(t.overflow@, key, n as int) == probe(t, key),
        decreases t.overflow@.len() - n,
    {
        let entry = t.overflow[n];
        if entry.0 == key {
            return Some(entry.1);
        }
        n += 1;
    }
    None
}

} // verus!
