//! The network: a feature transformer and eight output heads, and the file that holds them.

use vstd::prelude::*;
use vstd::string::StringExecFns;
use crate::board::bits;
use crate::board::placement;
use crate::board::position::Position;
use crate::board::text;
use crate::board::text::push_decimal;
use crate::board::types::{div_trunc, Piece, Ply, Value};
use crate::board::types;
use crate::eval::nnue::blocks;
use crate::eval::nnue::common::{decode_lossy, Component, NetError, LAYER_STACKS, VERSION};
use crate::eval::nnue::common;
use crate::eval::nnue::stack::LayerStack;
use crate::eval::nnue::stack;
use crate::eval::nnue::stream::{NetReader, NetWriter};
use crate::eval::nnue::transformer::{EvalScratch, PLY_SLOTS};
use crate::eval::nnue::transformer;
use crate::eval::nnue::weights::FeatureTransformer;
use crate::eval::nnue::weights;

verus! {

/// The name of the network file that is used unless another is named.
pub const DEFAULT_NET: &'static str = "nn-ab28990d4ea3.nnue";

// ---------------------------------------------------------------------------
// Structural hashes
// ---------------------------------------------------------------------------

/// The hash of the feature transformer.
pub const FEATURE_TRANSFORMER: u32 = 0xCB68_5313;

/// The hash of one layer stack.
pub const ARCHITECTURE: u32 = 0x6333_7116;

/// The hash of the whole network.
pub const NETWORK: u32 = 0xA85B_2205;

/// A word rotated by one bit to the left.
pub open spec fn rotated(h: u32) -> u32 {
    (h << 1) | (h >> 31)
}

/// The hashes of three components folded into one, with a rotation before each.
pub open spec fn combined(a: u32, b: u32, c: u32) -> u32 {
    rotated(rotated(a) ^ b) ^ c
}

/// A fully connected layer's hash behind that of the layer before it.
pub open spec fn affine_hash(prev: u32, output_dims: u32) -> u32 {
    ((0xCC03_DAE4u32 + output_dims) as u32) ^ (prev >> 1) ^ (prev << 31)
}

/// An activation's hash behind that of the layer before it.
pub open spec fn relu_hash(prev: u32) -> u32 {
    (0x538D_24C7u32 + prev) as u32
}

/// The hashes follow from the hashes of the three feature sets and from the widths of the
/// layers: 1024 for each side, then 32, 32 and one.
pub proof fn law_hashes_follow_the_shapes()
    ensures
        FEATURE_TRANSFORMER == combined(0x2e6b_9d04, 0x86f2_b1dd, 0x7f23_4cb8) ^ 2048,
        ARCHITECTURE == affine_hash(
            relu_hash(affine_hash(relu_hash(affine_hash(0xEC42_E90Du32 ^ 2048, 32)), 32)),
            1,
        ),
        NETWORK == FEATURE_TRANSFORMER ^ ARCHITECTURE,
{
    assert(0xCB68_5313u32 == combined(0x2e6b_9d04, 0x86f2_b1dd, 0x7f23_4cb8) ^ 2048) by (bit_vector);
    assert(0x6333_7116u32 == affine_hash(
        relu_hash(affine_hash(relu_hash(affine_hash(0xEC42_E90Du32 ^ 2048, 32)), 32)),
        1,
    )) by (bit_vector);
    assert(0xA85B_2205u32 == 0xCB68_5313u32 ^ 0x6333_7116u32) by (bit_vector);
}

// ---------------------------------------------------------------------------
// The file
// ---------------------------------------------------------------------------

/// The little-endian word at `at`.
pub open spec fn word(s: Seq<u8>, at: int) -> int {
    common::le(s.subrange(at, at + 4))
}

/// Where the header of a network file ends: its version, its hash and its description.
pub open spec fn head_of(s: Seq<u8>) -> Result<int, NetError> {
    if s.len() < 4 {
        Err(NetError::Truncated)
    } else if word(s, 0) != VERSION {
        Err(NetError::NotANet)
    } else if s.len() < 12 || word(s, 8) > 65536 || s.len() < 12 + word(s, 8) {
        Err(NetError::Truncated)
    } else if word(s, 4) != NETWORK {
        Err(NetError::WrongArchitecture { expected: NETWORK, found: word(s, 4) as u32 })
    } else {
        Ok(12 + word(s, 8))
    }
}

/// The first `m` layer stacks from `at` on, and where they end.
pub open spec fn stacks_upto(s: Seq<u8>, at: int, m: int) -> Result<
    (Seq<Seq<Seq<int>>>, int),
    NetError,
>
    decreases m,
{
    if m <= 0 {
        Ok((Seq::empty(), at))
    } else {
        match stacks_upto(s, at, m - 1) {
            Err(e) => Err(e),
            Ok((ps, a)) => if s.len() < a + 4 {
                Err(NetError::Truncated)
            } else if word(s, a) != ARCHITECTURE {
                Err(
                    NetError::WrongComponent {
                        what: Component::LayerStack,
                        expected: ARCHITECTURE,
                        found: word(s, a) as u32,
                    },
                )
            } else {
                match blocks::taken_upto(
                    s.subrange(a + 4, s.len() as int),
                    stack::stack_layout(),
                    6,
                ) {
                    Err(e) => Err(e),
                    Ok((v, t)) => Ok((ps.push(v), a + 4 + t)),
                }
            },
        }
    }
}

/// What a network file holds: the description's bytes, the transformer's parameters, and those
/// of the eight layer stacks. Every hash is checked, and nothing may follow.
pub open spec fn file_of(s: Seq<u8>) -> Result<
    (Seq<u8>, Seq<Seq<int>>, Seq<Seq<Seq<int>>>),
    NetError,
> {
    match head_of(s) {
        Err(e) => Err(e),
        Ok(a) => if s.len() < a + 4 {
            Err(NetError::Truncated)
        } else if word(s, a) != FEATURE_TRANSFORMER {
            Err(
                NetError::WrongComponent {
                    what: Component::FeatureTransformer,
                    expected: FEATURE_TRANSFORMER,
                    found: word(s, a) as u32,
                },
            )
        } else {
            match blocks::taken_upto(
                s.subrange(a + 4, s.len() as int),
                weights::transformer_layout(),
                7,
            ) {
                Err(e) => Err(e),
                Ok((v, t)) => match stacks_upto(s, a + 4 + t, 8) {
                    Err(e) => Err(e),
                    Ok((ps, z)) => if z == s.len() {
                        Ok((s.subrange(12, a), v, ps))
                    } else {
                        Err(NetError::TrailingData)
                    },
                },
            }
        },
    }
}

/// The bytes of the first `m` layer stacks.
pub open spec fn stack_bytes(ps: Seq<Seq<Seq<int>>>, m: int) -> Seq<u8>
    decreases m,
{
    if m <= 0 {
        Seq::empty()
    } else {
        stack_bytes(ps, m - 1) + common::le_bytes(ARCHITECTURE as int, 4) + blocks::stored_upto(
            stack::stack_layout(),
            ps[m - 1],
            6,
        )
    }
}

/// The bytes of a network file.
pub open spec fn file_bytes(desc: Seq<u8>, v: Seq<Seq<int>>, ps: Seq<Seq<Seq<int>>>) -> Seq<u8> {
    common::le_bytes(VERSION as int, 4) + common::le_bytes(NETWORK as int, 4) + common::le_bytes(
        desc.len() as int,
        4,
    ) + desc + common::le_bytes(FEATURE_TRANSFORMER as int, 4) + blocks::stored_upto(
        weights::transformer_layout(),
        v,
        7,
    ) + stack_bytes(ps, 8)
}

/// A loaded network.
#[derive(Debug)]
pub struct Network {
    pub transformer: FeatureTransformer,
    pub stacks: Vec<LayerStack>,
    pub name: String,
    pub description: String,
}

/// What the network says about a position.
#[derive(Clone, Copy, Debug)]
pub struct NetworkOutput {
    /// The score of material and placement.
    pub psqt: Value,
    /// The positional score.
    pub positional: Value,
}

/// Every output head's answer for one position.
#[derive(Debug)]
pub struct NetworkTrace {
    pub psqt: Vec<Value>,
    pub positional: Vec<Value>,
    /// The head that the number of pieces selects.
    pub correct_bucket: usize,
}

/// The parameters of a run of stacks.
pub open spec fn all_params(stacks: Seq<LayerStack>) -> Seq<Seq<Seq<int>>> {
    Seq::new(stacks.len(), |i: int| stacks[i].params())
}

impl Network {
    /// Every part has its shape.
    pub open spec fn wf(&self) -> bool {
        &&& self.transformer.wf()
        &&& self.stacks@.len() == LAYER_STACKS
        &&& forall|i: int| 0 <= i < LAYER_STACKS ==> (#[trigger] self.stacks@[i]).wf()
    }

    /// Read the layer stacks.
    fn read_stacks(r: &mut NetReader, Ghost(s): Ghost<Seq<u8>>, Ghost(at): Ghost<int>) -> (res:
        Result<Vec<LayerStack>, NetError>)
        requires
            old(r).wf(),
            old(r).data@ == s,
            old(r).at == at,
        ensures
            final(r).wf(),
            final(r).data@ == s,
            (match res {
                Ok(v) => {
                    &&& v@.len() == LAYER_STACKS
                    &&& forall|i: int| 0 <= i < v@.len() ==> (#[trigger] v@[i]).wf()
                    &&& stacks_upto(s, at, 8) == Ok::<(Seq<Seq<Seq<int>>>, int), NetError>(
                        (all_params(v@), final(r).at as int),
                    )
                },
                Err(e) => stacks_upto(s, at, 8) == Err::<(Seq<Seq<Seq<int>>>, int), NetError>(e),
            }),
    {
        let mut v: Vec<LayerStack> = Vec::new();
        assert(all_params(v@) =~= Seq::empty());
        while v.len() < LAYER_STACKS
            invariant
                r.wf(),
                r.data@ == s,
                v@.len() <= LAYER_STACKS,
                forall|i: int| 0 <= i < v@.len() ==> (#[trigger] v@[i]).wf(),
                stacks_upto(s, at, v@.len() as int) == Ok::<(Seq<Seq<Seq<int>>>, int), NetError>(
                    (all_params(v@), r.at as int),
                ),
            decreases LAYER_STACKS - v@.len(),
        {
            let ghost a = r.at as int;
            let ghost m = v@.len() as int;
            let ghost before = v@;
            let found = match r.u32() {
                Err(e) => {
                    proof {
                        lemma_stacks_stop(s, at, m + 1, 8, e);
                    }
                    return Err(e);
                },
                Ok(w) => w,
            };
            assert(s.subrange(a, s.len() as int).subrange(0, 4) =~= s.subrange(a, a + 4));
            if found != ARCHITECTURE {
                let e = NetError::WrongComponent {
                    what: Component::LayerStack,
                    expected: ARCHITECTURE,
                    found,
                };
                proof {
                    lemma_stacks_stop(s, at, m + 1, 8, e);
                }
                return Err(e);
            }
            let mut one = LayerStack::new();
            match one.read(r) {
                Err(e) => {
                    proof {
                        lemma_stacks_stop(s, at, m + 1, 8, e);
                    }
                    return Err(e);
                },
                Ok(_) => {},
            }
            v.push(one);
            assert(all_params(v@) =~= all_params(before).push(one.params()));
        }
        Ok(v)
    }

    /// Read a network from the bytes of its file. Every hash is checked before a parameter is
    /// used, and the file must end where the network does.
    pub fn parse(bytes: &[u8], name: String) -> (res: Result<Network, NetError>)
        ensures
            (match res {
                Ok(net) => {
                    &&& net.wf()
                    &&& net.name == name
                    &&& file_of(bytes@) matches Ok((desc, v, ps)) && net.description@
                        == common::lossy_text(desc) && net.transformer.params() == v && all_params(
                        net.stacks@,
                    ) == ps && (vstd::utf8::valid_utf8(desc) ==> net.description@
                        == vstd::utf8::decode_utf8(desc))
                },
                Err(e) => file_of(bytes@) == Err::<
                    (Seq<u8>, Seq<Seq<int>>, Seq<Seq<Seq<int>>>),
                    NetError,
                >(e),
            }),
    {
        let ghost s = bytes@;
        let mut r = NetReader::new(bytes);
        let (desc, file_hash) = match Network::read_head(&mut r) {
            Err(e) => return Err(e),
            Ok(h) => h,
        };
        if file_hash != NETWORK {
            return Err(NetError::WrongArchitecture { expected: NETWORK, found: file_hash });
        }
        let description = decode_lossy(desc.as_slice());
        let ghost a = r.at as int;
        let found = match r.u32() {
            Err(e) => return Err(e),
            Ok(w) => w,
        };
        assert(s.subrange(a, s.len() as int).subrange(0, 4) =~= s.subrange(a, a + 4));
        if found != FEATURE_TRANSFORMER {
            return Err(
                NetError::WrongComponent {
                    what: Component::FeatureTransformer,
                    expected: FEATURE_TRANSFORMER,
                    found,
                },
            );
        }
        let mut transformer = FeatureTransformer::new();
        match transformer.read(&mut r) {
            Err(e) => return Err(e),
            Ok(_) => {},
        }
        let ghost z = r.at as int;
        let stacks = match Network::read_stacks(&mut r, Ghost(s), Ghost(z)) {
            Err(e) => return Err(e),
            Ok(v) => v,
        };
        if !r.at_end() {
            return Err(NetError::TrailingData);
        }
        Ok(Network { transformer, stacks, name, description })
    }

    /// Read the version, the hash and the description.
    fn read_head(r: &mut NetReader) -> (res: Result<(Vec<u8>, u32), NetError>)
        requires
            old(r).wf(),
            old(r).at == 0,
        ensures
            final(r).wf(),
            final(r).data@ == old(r).data@,
            ({
                let s = old(r).data@;
                match res {
                    Ok((desc, hash)) => {
                        &&& s.len() >= 12
                        &&& word(s, 0) == VERSION
                        &&& hash == word(s, 4)
                        &&& word(s, 8) <= 65536
                        &&& s.len() >= 12 + word(s, 8)
                        &&& desc@ == s.subrange(12, 12 + word(s, 8))
                        &&& final(r).at == 12 + word(s, 8)
                    },
                    Err(e) => head_of(s) == Err::<int, NetError>(e),
                }
            }),
    {
        let ghost s = r.data@;
        assert(s.subrange(0, s.len() as int) =~= s);
        let version = match r.u32() {
            Err(e) => return Err(e),
            Ok(w) => w,
        };
        if version != VERSION {
            return Err(NetError::NotANet);
        }
        let hash = match r.u32() {
            Err(e) => return Err(e),
            Ok(w) => w,
        };
        assert(s.subrange(4, s.len() as int).subrange(0, 4) =~= s.subrange(4, 8));
        let len: u32 = match r.u32() {
            Err(e) => return Err(e),
            Ok(w) => w,
        };
        assert(s.subrange(8, s.len() as int).subrange(0, 4) =~= s.subrange(8, 12));
        if len > 65536 {
            return Err(NetError::Truncated);
        }
        let mut desc: Vec<u8> = Vec::new();
        while desc.len() < len as usize
            invariant
                desc@.len() <= len,
            decreases len - desc@.len(),
        {
            desc.push(0);
        }
        match r.read_exact(&mut desc) {
            Err(e) => return Err(e),
            Ok(_) => {},
        }
        assert(desc@ =~= s.subrange(12, 12 + len));
        Ok((desc, hash))
    }

    /// The bytes of the network's file, in the form that [`Network::parse`] reads. The hashes
    /// are this library's own. A description too long for its length word is an error.
    pub fn to_bytes(&self) -> (res: Result<Vec<u8>, NetError>)
        requires
            self.wf(),
        ensures
            (match res {
                Ok(v) => {
                    let desc = vstd::utf8::encode_utf8(self.description@);
                    &&& desc.len() < 0x1_0000_0000
                    &&& v@ == file_bytes(desc, self.transformer.params(), all_params(self.stacks@))
                },
                Err(e) => {
                    &&& e == NetError::Truncated
                    &&& vstd::utf8::encode_utf8(self.description@).len() >= 0x1_0000_0000
                },
            }),
    {
        let mut w = NetWriter::new();
        let _ = w.u32(VERSION);
        let _ = w.u32(NETWORK);
        let desc = self.description.as_str().as_bytes();
        if desc.len() > 0xFFFF_FFFF {
            return Err(NetError::Truncated);
        }
        let _ = w.u32(desc.len() as u32);
        let _ = w.write_all(desc);
        let _ = w.u32(FEATURE_TRANSFORMER);
        let _ = self.transformer.write(&mut w);
        let ghost ps = all_params(self.stacks@);
        let ghost head = w.out@;
        assert(head + stack_bytes(ps, 0) =~= head);
        let mut i: usize = 0;
        while i < self.stacks.len()
            invariant
                self.wf(),
                i <= self.stacks@.len(),
                ps == all_params(self.stacks@),
                w.out@ == head + stack_bytes(ps, i as int),
            decreases self.stacks@.len() - i,
        {
            let ghost before = w.out@;
            let _ = w.u32(ARCHITECTURE);
            let _ = self.stacks[i].write(&mut w);
            i += 1;
            assert(w.out@ =~= head + stack_bytes(ps, i as int));
        }
        assert(w.out@ =~= file_bytes(desc@, self.transformer.params(), ps));
        Ok(w.out)
    }
}

proof fn lemma_stacks_stop(s: Seq<u8>, at: int, m: int, n: int, e: NetError)
    requires
        0 <= m <= n,
        stacks_upto(s, at, m) == Err::<(Seq<Seq<Seq<int>>>, int), NetError>(e),
    ensures
        stacks_upto(s, at, n) == Err::<(Seq<Seq<Seq<int>>>, int), NetError>(e),
    decreases n - m,
{
    if m < n {
        lemma_stacks_stop(s, at, m, n - 1, e);
    }
}

/// The stacks are where they were written.
proof fn lemma_stacks_read(ps: Seq<Seq<Seq<int>>>, front: Seq<u8>, rest: Seq<u8>, m: int)
    requires
        0 <= m <= ps.len(),
        forall|i: int|
            0 <= i < ps.len() ==> blocks::fills(stack::stack_layout(), #[trigger] ps[i]),
    ensures
        stacks_upto(front + stack_bytes(ps, m) + rest, front.len() as int, m) == Ok::<
            (Seq<Seq<Seq<int>>>, int),
            NetError,
        >((ps.subrange(0, m), (front + stack_bytes(ps, m)).len() as int)),
    decreases m,
{
    let s = front + stack_bytes(ps, m) + rest;
    if m > 0 {
        let hash = common::le_bytes(ARCHITECTURE as int, 4);
        let body = blocks::stored_upto(stack::stack_layout(), ps[m - 1], 6);
        let a = (front + stack_bytes(ps, m - 1)).len() as int;
        lemma_stacks_read(ps, front, hash + body + rest, m - 1);
        assert(s =~= front + stack_bytes(ps, m - 1) + (hash + body + rest));
        common::lemma_le_bytes(ARCHITECTURE as int, 4);
        assert(s.subrange(a, a + 4) =~= hash);
        assert(s.subrange(a + 4, s.len() as int) =~= body + rest);
        blocks::law_layout_round_trip(stack::stack_layout(), ps[m - 1], 6, rest);
        assert(ps[m - 1].subrange(0, 6) =~= ps[m - 1]);
        assert(ps.subrange(0, m - 1).push(ps[m - 1]) =~= ps.subrange(0, m));
    } else {
        assert(ps.subrange(0, 0) =~= Seq::<Seq<Seq<int>>>::empty());
    }
}

/// A network that is written and read back is the same network, provided that its description
/// is no longer than a file may hold.
pub proof fn law_networks_round_trip(net: &Network)
    requires
        net.wf(),
        vstd::utf8::encode_utf8(net.description@).len() <= 65536,
    ensures
        ({
            let desc = vstd::utf8::encode_utf8(net.description@);
            let bytes = file_bytes(desc, net.transformer.params(), all_params(net.stacks@));
            &&& file_of(bytes) == Ok::<
                (Seq<u8>, Seq<Seq<int>>, Seq<Seq<Seq<int>>>),
                NetError,
            >((desc, net.transformer.params(), all_params(net.stacks@)))
            &&& vstd::utf8::valid_utf8(desc)
            &&& vstd::utf8::decode_utf8(desc) == net.description@
        }),
{
    let desc = vstd::utf8::encode_utf8(net.description@);
    let v = net.transformer.params();
    let ps = all_params(net.stacks@);
    let s = file_bytes(desc, v, ps);
    vstd::utf8::encode_utf8_valid_utf8(net.description@);
    vstd::utf8::encode_utf8_decode_utf8(net.description@);
    let w0 = common::le_bytes(VERSION as int, 4);
    let w1 = common::le_bytes(NETWORK as int, 4);
    let w2 = common::le_bytes(desc.len() as int, 4);
    let w3 = common::le_bytes(FEATURE_TRANSFORMER as int, 4);
    let body = blocks::stored_upto(weights::transformer_layout(), v, 7);
    let tail = stack_bytes(ps, 8);
    common::lemma_le_bytes(VERSION as int, 4);
    common::lemma_le_bytes(NETWORK as int, 4);
    common::lemma_le_bytes(desc.len() as int, 4);
    common::lemma_le_bytes(FEATURE_TRANSFORMER as int, 4);
    assert(s.subrange(0, 4) =~= w0);
    assert(s.subrange(4, 8) =~= w1);
    assert(s.subrange(8, 12) =~= w2);
    let a = 12 + desc.len() as int;
    assert(s.subrange(12, a) =~= desc);
    assert(s.subrange(a, a + 4) =~= w3);
    assert(s.subrange(a + 4, s.len() as int) =~= body + tail);
    weights::law_transformer_round_trip(&net.transformer, tail);
    assert forall|i: int| 0 <= i < ps.len() implies blocks::fills(
        stack::stack_layout(),
        #[trigger] ps[i],
    ) by {
        net.stacks@[i].lemma_sizes();
    }
    let front = w0 + w1 + w2 + desc + w3 + body;
    lemma_stacks_read(ps, front, Seq::empty(), 8);
    assert(s =~= front + tail + Seq::<u8>::empty());
    assert(ps.subrange(0, 8) =~= ps);
}

// ---------------------------------------------------------------------------
// Evaluation
// ---------------------------------------------------------------------------

/// The number of pieces on the board.
pub open spec fn pieces(b: Seq<Piece>) -> int {
    bits::members(placement::occ(b)).len() as int
}

/// The head that the number of pieces selects.
pub open spec fn bucket_of(b: Seq<Piece>) -> int {
    (pieces(b) - 1) / 4
}

impl Network {
    /// The score of material and placement that head `k` gives.
    pub open spec fn psqt_in(&self, pos: &Position, k: int) -> int {
        types::trunc_div(
            transformer::psqt_of(&self.transformer, pos.board@, pos.side_to_move, k),
            16,
        )
    }

    /// The positional score that head `k` gives.
    pub open spec fn positional_in(&self, pos: &Position, k: int) -> int {
        types::trunc_div(
            self.stacks@[k].score(
                transformer::transformed_of(&self.transformer, pos.board@, pos.side_to_move),
            ),
            16,
        )
    }

    /// The name of the network's file.
    pub fn name(&self) -> (r: &str)
        ensures
            r@ == self.name@,
    {
        self.name.as_str()
    }

    /// The text that the file describes itself with.
    pub fn description(&self) -> (r: &str)
        ensures
            r@ == self.description@,
    {
        self.description.as_str()
    }

    /// The size of the parameters in MiB, and the widths of the layers.
    pub fn arch_summary(&self) -> (r: String)
        requires
            self.wf(),
        ensures
            r@ == text::decimal(109) + "MiB, ("@ + text::decimal(86896) + ", "@ + text::decimal(1024)
                + ", "@ + text::decimal(32) + ", "@ + text::decimal(32) + ", 1)"@,
    {
        let mut bytes: usize = self.transformer.weight_bytes();
        let mut i: usize = 0;
        while i < self.stacks.len()
            invariant
                self.wf(),
                i <= 8,
                bytes == 114832896 + 35204 * i,
            decreases 8 - i,
        {
            bytes = bytes + self.stacks[i].weight_bytes();
            i += 1;
        }
        let mut s = "".to_string();
        proof {
            reveal_strlit("");
            assert(s@ =~= Seq::<char>::empty());
        }
        push_decimal(&mut s, (bytes / 1048576) as u64);
        assert(s@ =~= text::decimal(109));
        s.append("MiB, (");
        push_decimal(&mut s, 86896);
        s.append(", ");
        push_decimal(&mut s, 1024);
        s.append(", ");
        push_decimal(&mut s, 32);
        s.append(", ");
        push_decimal(&mut s, 32);
        s.append(", 1)");
        s
    }

    /// Which head a position uses.
    fn bucket(pos: &Position) -> (r: usize)
        requires
            pos.wf(),
            pieces(pos.board@) <= 32,
        ensures
            r == bucket_of(pos.board@),
            r < LAYER_STACKS,
    {
        proof {
            let w = placement::occ(pos.board@);
            placement::lemma_occ(pos.board@, pos.board.by_type@[0].0);
            placement::lemma_king(pos.board@, types::Color::White);
            let k = placement::king(pos.board@, types::Color::White);
            assert(bits::bit(w, k));
            bits::lemma_member_nonzero(w, k);
            bits::lemma_members_empty(w);
        }
        ((pos.piece_total() - 1) / 4) as usize
    }

    /// Evaluate a position at `ply` of the line that the scratch follows. The two scores come
    /// back apart, since how far they are from each other matters to the caller.
    pub fn evaluate(&self, pos: &Position, ply: Ply, scratch: &mut EvalScratch) -> (r: NetworkOutput)
        requires
            self.wf(),
            pos.wf(),
            pieces(pos.board@) <= 32,
            0 <= ply.0 < PLY_SLOTS,
            old(scratch).wf(),
        ensures
            final(scratch).wf(),
            old(scratch).fits(&self.transformer) && old(scratch).on_line(
                pos.board@,
                pos.top().key,
                ply.0 as int,
            ) ==> {
                &&& r.psqt.0 == self.psqt_in(pos, bucket_of(pos.board@))
                &&& r.positional.0 == self.positional_in(pos, bucket_of(pos.board@))
                &&& final(scratch).fits(&self.transformer)
                &&& final(scratch).on_line(pos.board@, pos.top().key, ply.0 as int)
            },
            ply.0 == 0 ==> final(scratch).open_to_others(pos.top().key),
            forall|h: int|
                0 <= h < PLY_SLOTS && h != ply.0 ==> #[trigger] final(scratch).plies@[h] == old(
                    scratch,
                ).plies@[h],
            -0x800_0000 <= r.psqt.0 <= 0x800_0000,
            -0x800_0000 <= r.positional.0 <= 0x800_0000,
    {
        let bucket = Network::bucket(pos);
        let psqt = self.transformer.transform(pos, bucket, ply.index(), scratch);
        let positional = self.stacks[bucket].propagate(scratch.transformed());
        NetworkOutput {
            psqt: Value(div_trunc(psqt, 16)),
            positional: Value(div_trunc(positional, 16)),
        }
    }

    /// What every head says of a position, and which one the position uses.
    pub fn trace_evaluate(&self, pos: &Position, scratch: &mut EvalScratch) -> (r: NetworkTrace)
        requires
            self.wf(),
            pos.wf(),
            pieces(pos.board@) <= 32,
            old(scratch).wf(),
        ensures
            final(scratch).wf(),
            r.correct_bucket == bucket_of(pos.board@),
            r.psqt@.len() == LAYER_STACKS,
            r.positional@.len() == LAYER_STACKS,
            old(scratch).fits(&self.transformer) && old(scratch).on_line(
                pos.board@,
                pos.top().key,
                0,
            ) ==> forall|k: int|
                0 <= k < LAYER_STACKS ==> (#[trigger] r.psqt@[k]).0 == self.psqt_in(pos, k)
                    && r.positional@[k].0 == self.positional_in(pos, k),
            old(scratch).fits(&self.transformer) && old(scratch).on_line(
                pos.board@,
                pos.top().key,
                0,
            ) ==> final(scratch).fits(&self.transformer) && final(scratch).on_line(
                pos.board@,
                pos.top().key,
                0,
            ),
            final(scratch).open_to_others(pos.top().key),
    {
        let ghost sound = scratch.fits(&self.transformer) && scratch.on_line(
            pos.board@,
            pos.top().key,
            0,
        );
        let mut psqt: Vec<Value> = Vec::new();
        let mut positional: Vec<Value> = Vec::new();
        let mut k: usize = 0;
        while k < LAYER_STACKS
            invariant
                k <= LAYER_STACKS,
                self.wf(),
                pos.wf(),
                scratch.wf(),
                psqt@.len() == k,
                positional@.len() == k,
                k > 0 ==> scratch.open_to_others(pos.top().key),
                sound ==> scratch.fits(&self.transformer) && scratch.on_line(
                    pos.board@,
                    pos.top().key,
                    0,
                ),
                sound ==> forall|i: int|
                    0 <= i < k ==> (#[trigger] psqt@[i]).0 == self.psqt_in(pos, i)
                        && positional@[i].0 == self.positional_in(pos, i),
            decreases LAYER_STACKS - k,
        {
            let score = self.transformer.transform(pos, k, 0, scratch);
            let other = self.stacks[k].propagate(scratch.transformed());
            psqt.push(Value(div_trunc(score, 16)));
            positional.push(Value(div_trunc(other, 16)));
            k += 1;
        }
        NetworkTrace { psqt, positional, correct_bucket: Network::bucket(pos) }
    }
}

} // verus!
