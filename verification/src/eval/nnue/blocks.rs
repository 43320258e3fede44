//! Parameter blocks: the runs of numbers that a network file is made of.

use vstd::prelude::*;
use crate::eval::nnue::common::NetError;
use crate::eval::nnue::common;
use crate::eval::nnue::stream;

verus! {

/// How a run of numbers is stored.
#[derive(Clone, Copy, Debug, PartialEq, Eq, Structural)]
pub enum Block {
    /// Compressed, and each number cut to two bytes.
    Packed16,
    /// Compressed.
    Packed32,
    /// One byte for each number.
    Plain8,
    /// Four bytes for each number.
    Plain32,
}

/// The `n` numbers of a block at the front of the bytes, and how many bytes it takes.
#[verifier::opaque]
pub open spec fn taken(k: Block, s: Seq<u8>, n: int) -> Result<(Seq<int>, int), NetError> {
    match k {
        Block::Packed16 => match stream::read_block(s, n) {
            Err(e) => Err(e),
            Ok((w, t)) => Ok((Seq::new(n as nat, |i: int| ((w[i] as i32) as i16) as int), t)),
        },
        Block::Packed32 => match stream::read_block(s, n) {
            Err(e) => Err(e),
            Ok((w, t)) => Ok((Seq::new(n as nat, |i: int| (w[i] as i32) as int), t)),
        },
        Block::Plain8 => if s.len() < n {
            Err(NetError::Truncated)
        } else {
            Ok((common::plain_values(s, 1, 128, n), n))
        },
        Block::Plain32 => if s.len() < 4 * n {
            Err(NetError::Truncated)
        } else {
            Ok((common::plain_values(s, 4, 0x8000_0000, n), 4 * n))
        },
    }
}

/// The bytes of a block.
pub open spec fn stored(k: Block, v: Seq<int>) -> Seq<u8> {
    match k {
        Block::Packed16 | Block::Packed32 => stream::block_of(v),
        Block::Plain8 => common::plain_bytes(v, 1, 128),
        Block::Plain32 => common::plain_bytes(v, 4, 0x8000_0000),
    }
}

/// Half of the range of the numbers in a block.
pub open spec fn half(k: Block) -> int {
    match k {
        Block::Packed16 => 32768,
        Block::Packed32 | Block::Plain32 => 0x8000_0000,
        Block::Plain8 => 128,
    }
}

/// The numbers can be stored: they are in range, and there are few enough of them for a
/// compressed block's length word.
pub open spec fn storable(k: Block, v: Seq<int>) -> bool {
    &&& v.len() <= 0x3000_0000
    &&& forall|i: int| 0 <= i < v.len() ==> -half(k) <= #[trigger] v[i] < half(k)
}

pub proof fn lemma_leb_len(v: int)
    requires
        -0x8000_0000 <= v < 0x8000_0000,
    ensures
        1 <= common::leb_bytes(v).len() <= 5,
{
    reveal_with_fuel(common::leb_bytes, 6);
}

/// A compressed payload takes at most five bytes for each number.
pub proof fn lemma_payload_len(v: Seq<int>)
    requires
        forall|i: int| 0 <= i < v.len() ==> -0x8000_0000 <= #[trigger] v[i] < 0x8000_0000,
    ensures
        common::leb_block(v).len() <= 5 * v.len(),
    decreases v.len(),
{
    if v.len() > 0 {
        assert forall|i: int| 0 <= i < v.drop_last().len() implies -0x8000_0000
            <= #[trigger] v.drop_last()[i] < 0x8000_0000 by {
            assert(v.drop_last()[i] == v[i]);
        }
        lemma_payload_len(v.drop_last());
        assert(v.last() == v[v.len() - 1]);
        lemma_leb_len(v.last());
    }
}

/// A block at the front of the bytes gives its numbers back and takes its own bytes.
pub proof fn law_block_round_trip(k: Block, v: Seq<int>, rest: Seq<u8>)
    requires
        storable(k, v),
    ensures
        taken(k, stored(k, v) + rest, v.len() as int) == Ok::<(Seq<int>, int), NetError>(
            (v, stored(k, v).len() as int),
        ),
{
    reveal(taken);
    match k {
        Block::Packed16 | Block::Packed32 => {
            let w = Seq::new(v.len(), |i: int| v[i] as i32);
            assert(stream::ints32(w) =~= v);
            lemma_payload_len(v);
            stream::law_blocks_round_trip(w, rest);
            let words = Seq::new(
                w.len(),
                |i: int| common::unsigned(w[i] as int, 0x8000_0000) as u32,
            );
            assert forall|i: int| 0 <= i < v.len() implies #[trigger] words[i] as i32 == v[i] by {
                assert(words[i] as i32 == w[i]);
            }
            if k == Block::Packed16 {
                assert(Seq::new(v.len(), |i: int| ((words[i] as i32) as i16) as int) =~= v);
            } else {
                assert(Seq::new(v.len(), |i: int| (words[i] as i32) as int) =~= v);
            }
        },
        Block::Plain8 => {
            common::law_plain_blocks_round_trip(v, 1, 128);
            crate::eval::nnue::layers::lemma_front_values(
                stored(k, v),
                rest,
                1,
                128,
                v.len() as int,
            );
        },
        Block::Plain32 => {
            common::law_plain_blocks_round_trip(v, 4, 0x8000_0000);
            crate::eval::nnue::layers::lemma_front_values(
                stored(k, v),
                rest,
                4,
                0x8000_0000,
                v.len() as int,
            );
        },
    }
}

/// The first `m` blocks of a layout, and how many bytes they take.
#[verifier::opaque]
pub open spec fn taken_upto(s: Seq<u8>, layout: Seq<(Block, int)>, m: int) -> Result<
    (Seq<Seq<int>>, int),
    NetError,
>
    decreases m,
{
    if m <= 0 {
        Ok((Seq::empty(), 0))
    } else {
        match taken_upto(s, layout, m - 1) {
            Err(e) => Err(e),
            Ok((vs, at)) => match taken(
                layout[m - 1].0,
                s.subrange(at, s.len() as int),
                layout[m - 1].1,
            ) {
                Err(e) => Err(e),
                Ok((v, t)) => Ok((vs.push(v), at + t)),
            },
        }
    }
}

/// The bytes of the first `m` blocks of a layout.
pub open spec fn stored_upto(layout: Seq<(Block, int)>, vs: Seq<Seq<int>>, m: int) -> Seq<u8>
    decreases m,
{
    if m <= 0 {
        Seq::empty()
    } else {
        stored_upto(layout, vs, m - 1) + stored(layout[m - 1].0, vs[m - 1])
    }
}

/// The numbers fill the layout.
pub open spec fn fills(layout: Seq<(Block, int)>, vs: Seq<Seq<int>>) -> bool {
    &&& vs.len() == layout.len()
    &&& forall|i: int|
        0 <= i < layout.len() ==> #[trigger] vs[i].len() == layout[i].1 && storable(
            layout[i].0,
            vs[i],
        )
}

/// Reading back what was written gives every block back.
pub proof fn law_layout_round_trip(
    layout: Seq<(Block, int)>,
    vs: Seq<Seq<int>>,
    m: int,
    rest: Seq<u8>,
)
    requires
        fills(layout, vs),
        0 <= m <= layout.len(),
    ensures
        taken_upto(stored_upto(layout, vs, m) + rest, layout, m) == Ok::<
            (Seq<Seq<int>>, int),
            NetError,
        >((vs.subrange(0, m), stored_upto(layout, vs, m).len() as int)),
    decreases m,
{
    reveal(taken_upto);
    let s = stored_upto(layout, vs, m) + rest;
    if m > 0 {
        let front = stored_upto(layout, vs, m - 1);
        let back = stored(layout[m - 1].0, vs[m - 1]) + rest;
        law_layout_round_trip(layout, vs, m - 1, back);
        assert(s =~= front + back);
        assert(s.subrange(front.len() as int, s.len() as int) =~= back);
        assert(vs[m - 1].len() == layout[m - 1].1);
        law_block_round_trip(layout[m - 1].0, vs[m - 1], rest);
        assert(vs.subrange(0, m - 1).push(vs[m - 1]) =~= vs.subrange(0, m));
    } else {
        assert(vs.subrange(0, 0) =~= Seq::<Seq<int>>::empty());
    }
}

/// One more block behind those already taken.
pub proof fn lemma_next(
    s: Seq<u8>,
    layout: Seq<(Block, int)>,
    m: int,
    vs: Seq<Seq<int>>,
    at: int,
    v: Seq<int>,
    t: int,
)
    requires
        0 <= m < layout.len(),
        taken_upto(s, layout, m) == Ok::<(Seq<Seq<int>>, int), NetError>((vs, at)),
        taken(layout[m].0, s.subrange(at, s.len() as int), layout[m].1) == Ok::<
            (Seq<int>, int),
            NetError,
        >((v, t)),
    ensures
        taken_upto(s, layout, m + 1) == Ok::<(Seq<Seq<int>>, int), NetError>((vs.push(v), at + t)),
{
    reveal(taken_upto);
}

/// A block that fails behind those already taken fails the layout.
pub proof fn lemma_stop(
    s: Seq<u8>,
    layout: Seq<(Block, int)>,
    m: int,
    n: int,
    vs: Seq<Seq<int>>,
    at: int,
    e: NetError,
)
    requires
        0 <= m < n <= layout.len(),
        taken_upto(s, layout, m) == Ok::<(Seq<Seq<int>>, int), NetError>((vs, at)),
        taken(layout[m].0, s.subrange(at, s.len() as int), layout[m].1) == Err::<
            (Seq<int>, int),
            NetError,
        >(e),
    ensures
        taken_upto(s, layout, n) == Err::<(Seq<Seq<int>>, int), NetError>(e),
    decreases n - m,
{
    reveal(taken_upto);
    if m + 1 < n {
        lemma_stop(s, layout, m, n - 1, vs, at, e);
    }
}

pub proof fn lemma_none_taken(s: Seq<u8>, layout: Seq<(Block, int)>)
    ensures
        taken_upto(s, layout, 0) == Ok::<(Seq<Seq<int>>, int), NetError>((Seq::empty(), 0)),
        s.subrange(0, s.len() as int) == s,
{
    reveal(taken_upto);
    assert(s.subrange(0, s.len() as int) =~= s);
}

} // verus!
