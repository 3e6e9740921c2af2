use vstd::prelude::*;
use crate::codec::{le64, get_u64, put_u64};

verus! {

/// The eight bytes `RedoxFS\0`, read as a little-endian integer.
pub const SIGNATURE: u64 = 0x0053_4678_6F64_6552;

pub const VERSION: u64 = 1;

/// The block that holds the header; the two before it are kept for boot code.
pub const HEADER_BLOCK: u64 = 2;

/// The superblock: what the image is, how large, and where its root
/// directory and its free list start.
#[derive(Clone, Copy, Debug, PartialEq, Eq, Structural)]
pub struct Header {
    pub signature: u64,
    pub version: u64,
    /// Size of the image in bytes.
    pub size: u64,
    /// Block of the root directory node.
    pub root: u64,
    /// Block of the first node of the free list.
    pub free: u64,
}

/// The header that a block's bytes spell.
pub open spec fn decode_header(s: Seq<u8>) -> Header {
    Header {
        signature: le64(s, 0),
        version: le64(s, 8),
        size: le64(s, 16),
        root: le64(s, 24),
        free: le64(s, 32),
    }
}

impl Header {
    pub fn new(size: u64, root: u64, free: u64) -> (h: Header)
        ensures
            h == (Header { signature: SIGNATURE, version: VERSION, size, root, free }),
    {
        Header { signature: SIGNATURE, version: VERSION, size, root, free }
    }

    /// Whether signature and version are those of this format.
    pub open spec fn spec_valid(&self) -> bool {
        self.signature == SIGNATURE && self.version == VERSION
    }

    #[verifier::when_used_as_spec(spec_valid)]
    pub fn valid(&self) -> (r: bool)
        ensures
            r == self.spec_valid(),
    {
        self.signature == SIGNATURE && self.version == VERSION
    }

    pub fn decode(buf: &[u8; 512]) -> (h: Header)
        ensures
            h == decode_header(buf@),
    {
        Header {
            signature: get_u64(buf, 0),
            version: get_u64(buf, 8),
            size: get_u64(buf, 16),
            root: get_u64(buf, 24),
            free: get_u64(buf, 32),
        }
    }

    /// The block that holds this header: the five fields, then zeros.
    pub fn encode(&self) -> (buf: [u8; 512])
        ensures
            decode_header(buf@) == *self,
            forall|i: int| 40 <= i < 512 ==> buf@[i] == 0u8,
    {
        let mut buf: [u8; 512] = [0u8; 512];
        put_u64(&mut buf, 0, self.signature);
        put_u64(&mut buf, 8, self.version);
        put_u64(&mut buf, 16, self.size);
        put_u64(&mut buf, 24, self.root);
        put_u64(&mut buf, 32, self.free);
        buf
    }
}

} // verus!
