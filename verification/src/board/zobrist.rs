//! The Zobrist keys and the fixed-seed generator that draws them.
//!
//! The seed and the draw order are part of the contract: every position key is a function of
//! them. The keys are numbered as they are drawn: twelve rows of 64 for the real pieces,
//! eight for the en-passant files, sixteen for the castling sets, one for the side to move
//! and one for the empty pawn structure.

use vstd::prelude::*;
use crate::board::types::{CastlingRights, File, Key, Piece, Square};

verus! {

/// The seed of the generator.
pub const SEED: u64 = 1_070_372;

/// The multiplier that turns a generator state into a key.
pub const MULTIPLIER: u64 = 2_685_821_657_736_338_717;

/// One xorshift step of the generator.
pub open spec fn step(s: u64) -> u64 {
    let a = s ^ (s >> 12u64);
    let b = a ^ (a << 25u64);
    b ^ (b >> 27u64)
}

/// The state of the generator after `n` steps.
pub open spec fn generator(n: nat) -> u64
    decreases n,
{
    if n == 0 {
        SEED
    } else {
        step(generator((n - 1) as nat))
    }
}

/// The key drawn as number `n`, counting from zero.
#[verifier::opaque]
pub open spec fn draw(n: int) -> Key {
    generator((n + 1) as nat).wrapping_mul(MULTIPLIER)
}

/// The row of a real piece in the draw order: White's six types, then Black's.
pub open spec fn row(pc: Piece) -> int {
    if pc.code() < 8 {
        pc.code() - 1
    } else {
        pc.code() - 3
    }
}

/// A pawn never rests on the rank it promotes on; its key there is zero.
pub open spec fn promotion_rank(pc: Piece, sq: int) -> bool {
    (pc == Piece::W_PAWN && sq / 8 == 7) || (pc == Piece::B_PAWN && sq / 8 == 0)
}

/// The key for `pc` standing on the square with index `sq`. Codes that name no piece have
/// the zero key.
pub open spec fn psq_key(pc: Piece, sq: int) -> Key {
    if !pc.is_real() || promotion_rank(pc, sq) {
        0
    } else {
        draw(64 * row(pc) + sq)
    }
}

/// The key for an en-passant target on the file with index `f`.
pub open spec fn ep_key(f: int) -> Key {
    draw(768 + f)
}

/// The key for the castling set with the given nibble.
pub open spec fn castling_key(nibble: int) -> Key {
    draw(776 + nibble)
}

/// The key of Black to move.
pub open spec fn side_key() -> Key {
    draw(792)
}

/// The seed of the pawn key.
pub open spec fn no_pawns_key() -> Key {
    draw(793)
}

/// One draw: the next state and the key.
pub fn next_key(s: u64) -> (r: (u64, Key))
    ensures
        r.0 == step(s),
        r.1 == step(s).wrapping_mul(MULTIPLIER),
{
    let a: u64 = s ^ (s >> 12u64);
    let b: u64 = a ^ (a << 25u64);
    let c: u64 = b ^ (b >> 27u64);
    (c, c.wrapping_mul(MULTIPLIER))
}

/// Everything drawn from the one generator.
#[derive(Debug)]
pub struct Tables {
    pub psq: [[Key; 64]; 16],
    pub en_passant: [Key; 8],
    pub castling: [Key; 16],
    pub side: Key,
    pub no_pawns: Key,
}

impl Tables {
    /// Every entry is the key it stands for.
    pub open spec fn wf(&self) -> bool {
        &&& forall|pc: Piece, sq: int|
            #![trigger self.psq@[pc.code()]@[sq]]
            #![trigger psq_key(pc, sq)]
            0 <= sq < 64 ==> self.psq@[pc.code()]@[sq] == psq_key(pc, sq)
        &&& forall|f: int| 0 <= f < 8 ==> #[trigger] self.en_passant@[f] == ep_key(f)
        &&& forall|n: int| 0 <= n < 16 ==> #[trigger] self.castling@[n] == castling_key(n)
        &&& self.side == side_key()
        &&& self.no_pawns == no_pawns_key()
    }

    /// The key for `pc` standing on `sq`.
    #[inline(always)]
    pub fn psq(&self, pc: Piece, sq: Square) -> (r: Key)
        requires
            self.wf(),
        ensures
            r == psq_key(pc, sq.idx()),
    {
        self.psq[pc.index()][sq.index()]
    }

    /// The key for an en-passant target on `file`.
    #[inline(always)]
    pub fn en_passant(&self, file: File) -> (r: Key)
        requires
            self.wf(),
        ensures
            r == ep_key(file.idx()),
    {
        self.en_passant[file.index()]
    }

    /// The key for a castling-rights set.
    #[inline(always)]
    pub fn castling(&self, cr: CastlingRights) -> (r: Key)
        requires
            self.wf(),
        ensures
            r == castling_key(cr.nibble()),
    {
        self.castling[cr.index()]
    }
}

/// The key drawn next after `n` draws.
proof fn lemma_draw(n: int, s: u64, t: u64)
    requires
        n >= 0,
        s == generator(n as nat),
        t == step(s),
    ensures
        t == generator((n + 1) as nat),
        t.wrapping_mul(MULTIPLIER) == draw(n),
{
    reveal(draw);
}

/// The real piece of a row.
fn piece_of_row(i: usize) -> (r: Piece)
    requires
        i < 12,
    ensures
        r.is_real(),
        row(r) == i,
{
    if i < 6 {
        Piece::from_raw(i as u8 + 1)
    } else {
        Piece::from_raw(i as u8 + 3)
    }
}

/// Draw one row: the keys of one piece, a1 first.
fn draw_row(i: usize, s: u64) -> (r: (u64, [Key; 64]))
    requires
        i < 12,
        s == generator((64 * i) as nat),
    ensures
        r.0 == generator((64 * i + 64) as nat),
        forall|sq: int| 0 <= sq < 64 ==> #[trigger] r.1@[sq] == draw(64 * i + sq),
{
    let mut keys: [Key; 64] = [0; 64];
    let mut state: u64 = s;
    let mut sq: usize = 0;
    while sq < 64
        invariant
            i < 12,
            sq <= 64,
            state == generator((64 * i + sq) as nat),
            forall|k: int| 0 <= k < sq ==> #[trigger] keys@[k] == draw(64 * i + k),
        decreases 64 - sq,
    {
        let (ns, k) = next_key(state);
        proof {
            lemma_draw(64 * i + sq, state, ns);
        }
        state = ns;
        keys[sq] = k;
        sq += 1;
    }
    (state, keys)
}

/// Draw every key, in order.
pub fn build() -> (t: Tables)
    ensures
        t.wf(),
{
    let mut psq: [[Key; 64]; 16] = [[0u64; 64]; 16];
    let mut s: u64 = SEED;

    // The twelve real pieces. Codes that name no piece are skipped and keep their zeros.
    let mut i: usize = 0;
    while i < 12
        invariant
            i <= 12,
            s == generator((64 * i) as nat),
            forall|pc: Piece, sq: int|
                #![trigger psq@[pc.code()]@[sq]]
                0 <= sq < 64 ==> psq@[pc.code()]@[sq] == (if pc.is_real() && row(pc) < i {
                    draw(64 * row(pc) + sq)
                } else {
                    0
                }),
        decreases 12 - i,
    {
        let (ns, keys) = draw_row(i, s);
        s = ns;
        let pc = piece_of_row(i);
        psq[pc.index()] = keys;
        proof {
            assert forall|q: Piece, sq: int| 0 <= sq < 64 implies #[trigger] psq@[q.code()]@[sq] == (
            if q.is_real() && row(q) < i + 1 {
                draw(64 * row(q) + sq)
            } else {
                0
            }) by {
                if q.code() == pc.code() {
                    assert(q == pc);
                }
            }
        }
        i += 1;
    }

    // A pawn never rests on its promotion rank: the key there is zero, so that the two
    // exclusive ors of a promotion need no special case.
    let mut wp: [Key; 64] = psq[1];
    let mut bp: [Key; 64] = psq[9];
    let ghost before_w = wp@;
    let ghost before_b = bp@;
    let mut f: usize = 0;
    while f < 8
        invariant
            f <= 8,
            forall|sq: int|
                0 <= sq < 64 ==> #[trigger] wp@[sq] == (if 56 <= sq < 56 + f {
                    0
                } else {
                    before_w[sq]
                }),
            forall|sq: int|
                0 <= sq < 64 ==> #[trigger] bp@[sq] == (if 0 <= sq < f {
                    0
                } else {
                    before_b[sq]
                }),
        decreases 8 - f,
    {
        wp[56 + f] = 0;
        bp[f] = 0;
        f += 1;
    }
    let ghost drawn = psq@;
    psq[1] = wp;
    psq[9] = bp;

    let mut en_passant: [Key; 8] = [0; 8];
    let mut f: usize = 0;
    while f < 8
        invariant
            f <= 8,
            s == generator((768 + f) as nat),
            forall|k: int| 0 <= k < f ==> #[trigger] en_passant@[k] == ep_key(k),
        decreases 8 - f,
    {
        let (ns, k) = next_key(s);
        proof {
            lemma_draw(768 + f, s, ns);
        }
        s = ns;
        en_passant[f] = k;
        f += 1;
    }

    // One key per rights set, so that a change of rights is one exclusive or of two keys.
    let mut castling: [Key; 16] = [0; 16];
    let mut cr: usize = 0;
    while cr < 16
        invariant
            cr <= 16,
            s == generator((776 + cr) as nat),
            forall|k: int| 0 <= k < cr ==> #[trigger] castling@[k] == castling_key(k),
        decreases 16 - cr,
    {
        let (ns, k) = next_key(s);
        proof {
            lemma_draw(776 + cr, s, ns);
        }
        s = ns;
        castling[cr] = k;
        cr += 1;
    }

    let (s1, side) = next_key(s);
    let (s2, no_pawns) = next_key(s1);
    proof {
        lemma_draw(792, s, s1);
        lemma_draw(793, s1, s2);
        assert(drawn[1]@ == before_w && drawn[9]@ == before_b);
        assert forall|pc: Piece, sq: int| 0 <= sq < 64 implies #[trigger] psq@[pc.code()]@[sq]
            == psq_key(pc, sq) by {
            assert(drawn[pc.code()]@[sq] == (if pc.is_real() {
                draw(64 * row(pc) + sq)
            } else {
                0
            }));
            if pc == Piece::W_PAWN {
                assert(psq@[1]@[sq] == wp@[sq]);
            } else if pc == Piece::B_PAWN {
                assert(psq@[9]@[sq] == bp@[sq]);
            }
        }
    }
    Tables { psq, en_passant, castling, side, no_pawns }
}

/// The key for `pc` standing on `sq`.
pub fn psq(pc: Piece, sq: Square) -> (r: Key)
    ensures
        r == psq_key(pc, sq.idx()),
{
    build().psq(pc, sq)
}

/// The key for an en-passant target on `file`.
pub fn en_passant(file: File) -> (r: Key)
    ensures
        r == ep_key(file.idx()),
{
    build().en_passant(file)
}

/// The key for a castling-rights set.
pub fn castling(cr: CastlingRights) -> (r: Key)
    ensures
        r == castling_key(cr.nibble()),
{
    build().castling(cr)
}

/// The key that is exclusive-ored in when it is Black to move.
pub fn side() -> (r: Key)
    ensures
        r == side_key(),
{
    build().side
}

/// The seed for the pawn key.
pub fn no_pawns() -> (r: Key)
    ensures
        r == no_pawns_key(),
{
    build().no_pawns
}

} // verus!
