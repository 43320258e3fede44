//! The header of a network file: what can be read without knowing the shape of its layers.

use vstd::prelude::*;
use vstd::string::StringExecFns;
use crate::eval::nnue::common::decode_lossy;
use crate::eval::nnue::common;
use crate::eval::nnue::stream::NetReader;

verus! {

/// The version word that a network of this generation begins with.
pub const NNUE_VERSION: u32 = 0x7AF3_2F20;

/// What went wrong while reading a header.
#[derive(Clone, Copy, Debug, PartialEq, Eq, Structural)]
pub enum NetError {
    /// The leading version word is not [`NNUE_VERSION`].
    NotANet,
    /// The file is a network, but not for this architecture.
    WrongArchitecture { expected: u32, found: u32 },
    /// The file ended before the header did.
    Truncated,
}

impl NetError {
    /// The error in words.
    pub fn message(self) -> (r: String)
        ensures
            r@ == (match self {
                NetError::NotANet => "not an NNUE network file"@,
                NetError::WrongArchitecture { expected, found } => "network architecture "@
                    + common::hash_text(found) + " does not match "@ + common::hash_text(expected),
                NetError::Truncated => "network file ends inside its header"@,
            }),
    {
        match self {
            NetError::NotANet => "not an NNUE network file".to_string(),
            NetError::WrongArchitecture { expected, found } => {
                let mut s = "network architecture ".to_string();
                common::push_hash(&mut s, found);
                s.append(" does not match ");
                common::push_hash(&mut s, expected);
                s
            },
            NetError::Truncated => "network file ends inside its header".to_string(),
        }
    }
}

/// The header of a network file.
#[derive(Debug)]
pub struct NetHeader {
    pub version: u32,
    /// The hash of the architecture that the network was trained for.
    pub hash: u32,
    /// The text that the file describes itself with.
    pub description: String,
}

/// The words of a header and the bytes of its description.
pub open spec fn header_of(s: Seq<u8>) -> Result<(int, int, Seq<u8>), NetError> {
    if s.len() < 4 {
        Err(NetError::Truncated)
    } else if common::le(s.subrange(0, 4)) != NNUE_VERSION {
        Err(NetError::NotANet)
    } else if s.len() < 12 {
        Err(NetError::Truncated)
    } else {
        let n = common::le(s.subrange(8, 12));
        if n > 65536 || s.len() < 12 + n {
            Err(NetError::Truncated)
        } else {
            Ok(
                (
                    common::le(s.subrange(0, 4)),
                    common::le(s.subrange(4, 8)),
                    s.subrange(12, 12 + n),
                ),
            )
        }
    }
}

/// Read and check a header off the front of the bytes. A description longer than a few
/// kilobytes is refused before anything is reserved for it.
pub fn read_header(r: &mut NetReader) -> (res: Result<NetHeader, NetError>)
    requires
        old(r).wf(),
    ensures
        final(r).wf(),
        final(r).data@ == old(r).data@,
        (match res {
            Ok(h) => header_of(old(r).rest()) matches Ok((version, hash, desc)) && h.version
                == version && h.hash == hash && h.description@ == common::lossy_text(desc) && (
            vstd::utf8::valid_utf8(desc) ==> h.description@ == vstd::utf8::decode_utf8(desc))
                && final(r).at == old(r).at + 12 + desc.len(),
            Err(e) => header_of(old(r).rest()) == Err::<(int, int, Seq<u8>), NetError>(e),
        }),
{
    let ghost s = r.rest();
    let ghost a = r.at as int;
    let version = match r.u32() {
        Err(_) => return Err(NetError::Truncated),
        Ok(w) => w,
    };
    if version != NNUE_VERSION {
        return Err(NetError::NotANet);
    }
    assert(r.rest() =~= s.subrange(4, s.len() as int));
    let hash = match r.u32() {
        Err(_) => return Err(NetError::Truncated),
        Ok(w) => w,
    };
    assert(s.subrange(4, s.len() as int).subrange(0, 4) =~= s.subrange(4, 8));
    assert(r.rest() =~= s.subrange(8, s.len() as int));
    let len: u32 = match r.u32() {
        Err(_) => return Err(NetError::Truncated),
        Ok(w) => w,
    };
    assert(s.subrange(8, s.len() as int).subrange(0, 4) =~= s.subrange(8, 12));
    assert(r.rest() =~= s.subrange(12, s.len() as int));
    if len > 65536 {
        return Err(NetError::Truncated);
    }
    let mut desc: Vec<u8> = Vec::new();
    while desc.len() < len as usize
        invariant
            desc@.len() <= len,
        decreases len - desc@.len(),
    {
        desc.push(0);
    }
    match r.read_exact(&mut desc) {
        Err(_) => return Err(NetError::Truncated),
        Ok(_) => {},
    }
    assert(desc@ =~= s.subrange(12, 12 + len));
    let description = decode_lossy(desc.as_slice());
    Ok(NetHeader { version, hash, description })
}

/// A network whose parameters have not been read yet.
#[derive(Debug)]
pub struct Network {
    pub header: NetHeader,
    /// The name of the file.
    pub name: String,
    /// What follows the header.
    pub weights: Vec<u8>,
}

impl Network {
    /// Split the bytes of a file into its header and what follows.
    pub fn parse(bytes: &[u8], name: String) -> (res: Result<Network, NetError>)
        ensures
            (match res {
                Ok(net) => header_of(bytes@) matches Ok((version, hash, desc))
                    && net.header.version == version && net.header.hash == hash
                    && net.header.description@ == common::lossy_text(desc) && net.name == name
                    && net.weights@ == bytes@.subrange(12 + desc.len() as int, bytes@.len() as int),
                Err(e) => header_of(bytes@) == Err::<(int, int, Seq<u8>), NetError>(e),
            }),
    {
        let mut r = NetReader::new(bytes);
        match read_header(&mut r) {
            Err(e) => Err(e),
            Ok(header) => {
                let start = r.at;
                let mut weights: Vec<u8> = Vec::new();
                while weights.len() < bytes.len() - start
                    invariant
                        start <= bytes@.len(),
                        weights@.len() <= bytes@.len() - start,
                        weights@ == bytes@.subrange(start as int, start + weights@.len()),
                    decreases bytes@.len() - start - weights@.len(),
                {
                    let x = bytes[start + weights.len()];
                    weights.push(x);
                    assert(weights@ =~= bytes@.subrange(start as int, start + weights@.len()));
                }
                assert(weights@ =~= bytes@.subrange(start as int, bytes@.len() as int));
                Ok(Network { header, name, weights })
            },
        }
    }

    /// The network's header.
    pub fn header(&self) -> (r: &NetHeader)
        ensures
            *r == self.header,
    {
        &self.header
    }

    /// The name of the network's file.
    pub fn name(&self) -> (r: &str)
        ensures
            r@ == self.name@,
    {
        self.name.as_str()
    }

    /// How many bytes follow the header.
    pub fn weight_len(&self) -> (r: usize)
        ensures
            r == self.weights@.len(),
    {
        self.weights.len()
    }
}

} // verus!
