use vstd::prelude::*;
use crate::codec::{get_u32, get_u64, kept_outside, le32, le64, put_bytes, put_u32, put_u64};
use crate::flag::{MODE_DIR, MODE_FILE, MODE_TYPE};

verus! {

/// The longest name a node record can hold, in bytes.
pub const NAME_MAX: usize = 203;

/// The number of extents that one node record carries inline.
pub const EXTENTS: usize = 16;

pub const OFF_NAME: usize = 1;
pub const OFF_MODE: usize = 204;
pub const OFF_UID: usize = 208;
pub const OFF_GID: usize = 212;
pub const OFF_CTIME: usize = 216;
pub const OFF_CTIME_NSEC: usize = 224;
pub const OFF_MTIME: usize = 228;
pub const OFF_MTIME_NSEC: usize = 236;
pub const OFF_PARENT: usize = 240;
pub const OFF_NEXT: usize = 248;
pub const OFF_EXTENTS: usize = 256;

/// A run of blocks that holds `length` bytes from block `start` on. It takes
/// up as many blocks as the bytes need, the last one perhaps in part.
#[derive(Clone, Copy, Debug, PartialEq, Eq, Structural)]
pub struct Extent {
    pub start: u64,
    pub length: u64,
}

impl Extent {
    /// The number of blocks the extent takes up.
    pub open spec fn span(&self) -> int {
        (self.length + 511) / 512
    }

    /// The number of blocks the extent takes up.
    pub fn blocks(&self) -> (n: u64)
        ensures
            n == self.span(),
    {
        if self.length % 512 == 0 {
            self.length / 512
        } else {
            self.length / 512 + 1
        }
    }

    pub fn empty() -> (e: Extent)
        ensures
            e == (Extent { start: 0, length: 0 }),
    {
        Extent { start: 0, length: 0 }
    }
}

/// One node record: a file or a directory, or a link in the free list.
#[derive(Debug)]
pub struct Node {
    pub name: Vec<u8>,
    pub mode: u32,
    pub uid: u32,
    pub gid: u32,
    pub ctime: u64,
    pub ctime_nsec: u32,
    pub mtime: u64,
    pub mtime_nsec: u32,
    /// Block of the directory that lists this node; 0 for none.
    pub parent: u64,
    /// Block of the record that continues the extent list; 0 for none.
    pub next: u64,
    pub extents: [Extent; 16],
}

/// A node record as a mathematical value.
pub struct NodeView {
    pub name: Seq<u8>,
    pub mode: u32,
    pub uid: u32,
    pub gid: u32,
    pub ctime: u64,
    pub ctime_nsec: u32,
    pub mtime: u64,
    pub mtime_nsec: u32,
    pub parent: u64,
    pub next: u64,
    pub extents: Seq<Extent>,
}

impl NodeView {
    pub open spec fn is_dir(self) -> bool {
        self.mode & MODE_TYPE == MODE_DIR
    }

    pub open spec fn is_file(self) -> bool {
        self.mode & MODE_TYPE == MODE_FILE
    }

    /// The node with another `next` and other extents.
    pub open spec fn with_layout(self, next: u64, extents: Seq<Extent>) -> NodeView {
        NodeView { next, extents, ..self }
    }

    /// Whether two records say the same of the node itself, whatever they
    /// say of where its bytes lie.
    pub open spec fn same_meta(self, other: NodeView) -> bool {
        self.with_layout(0, Seq::empty()) == other.with_layout(0, Seq::empty())
    }
}

impl View for Node {
    type V = NodeView;

    open spec fn view(&self) -> NodeView {
        NodeView {
            name: self.name@,
            mode: self.mode,
            uid: self.uid,
            gid: self.gid,
            ctime: self.ctime,
            ctime_nsec: self.ctime_nsec,
            mtime: self.mtime,
            mtime_nsec: self.mtime_nsec,
            parent: self.parent,
            next: self.next,
            extents: self.extents@,
        }
    }
}

/// The length of the name that a record's bytes spell: the first byte, held
/// to what the name field can take.
pub open spec fn name_len(s: Seq<u8>) -> int {
    if s[0] <= NAME_MAX {
        s[0] as int
    } else {
        NAME_MAX as int
    }
}

/// The extent that stands in slot `j` of a record's bytes.
pub open spec fn decode_extent(s: Seq<u8>, j: int) -> Extent {
    Extent { start: le64(s, 256 + 16 * j), length: le64(s, 264 + 16 * j) }
}

/// The node record that a block's bytes spell.
pub open spec fn decode_node(s: Seq<u8>) -> NodeView {
    NodeView {
        name: s.subrange(1, 1 + name_len(s)),
        mode: le32(s, 204),
        uid: le32(s, 208),
        gid: le32(s, 212),
        ctime: le64(s, 216),
        ctime_nsec: le32(s, 224),
        mtime: le64(s, 228),
        mtime_nsec: le32(s, 236),
        parent: le64(s, 240),
        next: le64(s, 248),
        extents: Seq::new(16, |j: int| decode_extent(s, j)),
    }
}

/// A name as a record stores it: cut to what the name field can take.
pub open spec fn stored_name(name: Seq<u8>) -> Seq<u8> {
    if name.len() <= NAME_MAX {
        name
    } else {
        name.subrange(0, NAME_MAX as int)
    }
}

/// Whether `a` and `b` hold the same bytes.
pub fn bytes_eq(a: &[u8], b: &[u8]) -> (r: bool)
    ensures
        r == (a@ == b@),
{
    if a.len() != b.len() {
        return false;
    }
    let n = a.len();
    let mut i: usize = 0;
    while i < n
        invariant
            i <= n,
            n == a@.len(),
            n == b@.len(),
            forall|k: int| 0 <= k < i ==> a@[k] == b@[k],
        decreases n - i,
    {
        if a[i] != b[i] {
            return false;
        }
        i += 1;
    }
    assert(a@ =~= b@);
    true
}

impl Node {
    pub open spec fn wf(&self) -> bool {
        self.name@.len() <= NAME_MAX
    }

    /// A fresh record with no extents. A name longer than the name field is
    /// cut to fit.
    pub fn new(
        mode: u32,
        name: &[u8],
        parent: u64,
        uid: u32,
        gid: u32,
        ctime: u64,
        ctime_nsec: u32,
    ) -> (n: Node)
        ensures
            n.wf(),
            n@ == (NodeView {
                name: stored_name(name@),
                mode,
                uid,
                gid,
                ctime,
                ctime_nsec,
                mtime: ctime,
                mtime_nsec: ctime_nsec,
                parent,
                next: 0,
                extents: Seq::new(16, |j: int| Extent { start: 0, length: 0 }),
            }),
    {
        let len = if name.len() <= NAME_MAX {
            name.len()
        } else {
            NAME_MAX
        };
        let mut stored: Vec<u8> = Vec::new();
        let mut i: usize = 0;
        while i < len
            invariant
                i <= len,
                len <= name@.len(),
                stored@ == name@.subrange(0, i as int),
            decreases len - i,
        {
            stored.push(name[i]);
            assert(name@.subrange(0, i as int).push(name@[i as int]) =~= name@.subrange(
                0,
                i + 1,
            ));
            i += 1;
        }
        assert(stored@ =~= stored_name(name@));
        let n = Node {
            name: stored,
            mode,
            uid,
            gid,
            ctime,
            ctime_nsec,
            mtime: ctime,
            mtime_nsec: ctime_nsec,
            parent,
            next: 0,
            extents: [Extent { start: 0, length: 0 };16],
        };
        assert(n.extents@ =~= Seq::new(16, |j: int| Extent { start: 0, length: 0 }));
        n
    }

    /// A record of zeros: the empty name, no extents, nothing set.
    pub fn blank() -> (n: Node)
        ensures
            n.wf(),
            n@.name.len() == 0,
            n@.next == 0,
            n@.parent == 0,
            n@.mode == 0,
            forall|j: int| 0 <= j < 16 ==> n@.extents[j] == (Extent { start: 0, length: 0 }),
    {
        Node::new(0, &[], 0, 0, 0, 0, 0)
    }

    pub open spec fn spec_is_dir(&self) -> bool {
        self@.is_dir()
    }

    #[verifier::when_used_as_spec(spec_is_dir)]
    pub fn is_dir(&self) -> (r: bool)
        ensures
            r == self@.is_dir(),
    {
        self.mode & MODE_TYPE == MODE_DIR
    }

    pub open spec fn spec_is_file(&self) -> bool {
        self@.is_file()
    }

    #[verifier::when_used_as_spec(spec_is_file)]
    pub fn is_file(&self) -> (r: bool)
        ensures
            r == self@.is_file(),
    {
        self.mode & MODE_TYPE == MODE_FILE
    }

    /// The name, as the bytes that the record stores.
    pub fn name(&self) -> (r: &[u8])
        ensures
            r@ == self@.name,
    {
        self.name.as_slice()
    }

    /// Reads a record out of the block that holds it.
    pub fn decode(buf: &[u8; 512]) -> (n: Node)
        ensures
            n.wf(),
            n@ == decode_node(buf@),
    {
        let len: usize = if buf[0] as usize <= NAME_MAX {
            buf[0] as usize
        } else {
            NAME_MAX
        };
        let mut name: Vec<u8> = Vec::new();
        let mut i: usize = 0;
        while i < len
            invariant
                i <= len,
                len <= NAME_MAX,
                name@ == buf@.subrange(1, 1 + i),
            decreases len - i,
        {
            name.push(buf[1 + i]);
            assert(buf@.subrange(1, 1 + i).push(buf@[1 + i]) =~= buf@.subrange(1, 1 + i + 1));
            i += 1;
        }
        let mut extents: [Extent; 16] = [Extent { start: 0, length: 0 };16];
        let mut j: usize = 0;
        while j < 16
            invariant
                j <= 16,
                forall|k: int| 0 <= k < j ==> extents@[k] == decode_extent(buf@, k),
            decreases 16 - j,
        {
            let e = Extent {
                start: get_u64(buf, OFF_EXTENTS + 16 * j),
                length: get_u64(buf, OFF_EXTENTS + 16 * j + 8),
            };
            extents[j] = e;
            j += 1;
        }
        let n = Node {
            name,
            mode: get_u32(buf, OFF_MODE),
            uid: get_u32(buf, OFF_UID),
            gid: get_u32(buf, OFF_GID),
            ctime: get_u64(buf, OFF_CTIME),
            ctime_nsec: get_u32(buf, OFF_CTIME_NSEC),
            mtime: get_u64(buf, OFF_MTIME),
            mtime_nsec: get_u32(buf, OFF_MTIME_NSEC),
            parent: get_u64(buf, OFF_PARENT),
            next: get_u64(buf, OFF_NEXT),
            extents,
        };
        assert(n@.extents =~= decode_node(buf@).extents);
        n
    }

    /// The block that holds this record: the length of the name, the name,
    /// zeros up to the end of the name field, then the other fields and the
    /// extents. Reading it back gives the record.
    pub fn encode(&self) -> (buf: [u8; 512])
        requires
            self.wf(),
        ensures
            decode_node(buf@) == self@,
            buf@[0] == self@.name.len(),
            forall|i: int| 1 + self@.name.len() <= i < 204 ==> buf@[i] == 0u8,
    {
        let mut buf: [u8; 512] = [0u8; 512];
        let len = self.name.len();
        buf[0] = len as u8;
        put_bytes(&mut buf, OFF_NAME, self.name.as_slice());
        put_u32(&mut buf, OFF_MODE, self.mode);
        put_u32(&mut buf, OFF_UID, self.uid);
        put_u32(&mut buf, OFF_GID, self.gid);
        put_u64(&mut buf, OFF_CTIME, self.ctime);
        put_u32(&mut buf, OFF_CTIME_NSEC, self.ctime_nsec);
        put_u64(&mut buf, OFF_MTIME, self.mtime);
        put_u32(&mut buf, OFF_MTIME_NSEC, self.mtime_nsec);
        put_u64(&mut buf, OFF_PARENT, self.parent);
        put_u64(&mut buf, OFF_NEXT, self.next);
        let ghost head = buf@;
        assert(head.subrange(1, 1 + name_len(head)) =~= self.name@);
        assert(head[0] == self.name@.len());
        assert(forall|i: int| 1 + self.name@.len() <= i < 204 ==> head[i] == 0u8);
        let mut j: usize = 0;
        while j < 16
            invariant
                j <= 16,
                head.len() == 512,
                head[0] == self.name@.len(),
                forall|i: int| 1 + self.name@.len() <= i < 204 ==> head[i] == 0u8,
                forall|i: int| 0 <= i < 256 ==> buf@[i] == head[i],
                le32(buf@, 204) == le32(head, 204),
                le32(buf@, 208) == le32(head, 208),
                le32(buf@, 212) == le32(head, 212),
                le64(buf@, 216) == le64(head, 216),
                le32(buf@, 224) == le32(head, 224),
                le64(buf@, 228) == le64(head, 228),
                le32(buf@, 236) == le32(head, 236),
                le64(buf@, 240) == le64(head, 240),
                le64(buf@, 248) == le64(head, 248),
                forall|k: int| 0 <= k < j ==> decode_extent(buf@, k) == self.extents@[k],
            decreases 16 - j,
        {
            let e = self.extents[j];
            let ghost prev = buf@;
            put_u64(&mut buf, OFF_EXTENTS + 16 * j, e.start);
            put_u64(&mut buf, OFF_EXTENTS + 16 * j + 8, e.length);
            proof {
                assert forall|k: int| 0 <= k < j + 1 implies decode_extent(buf@, k)
                    == self.extents@[k] by {
                    if k < j {
                        assert(decode_extent(prev, k) == self.extents@[k]);
                    }
                }
            }
            j += 1;
        }
        proof {
            assert(buf@.subrange(1, 1 + name_len(buf@)) =~= self.name@);
            assert(decode_node(buf@).extents =~= self.extents@);
            assert forall|i: int| 1 + self@.name.len() <= i < 204 implies buf@[i] == 0u8 by {
                assert(buf@[i] == head[i]);
            }
        }
        buf
    }
}

impl Clone for Node {
    fn clone(&self) -> (r: Node)
        ensures
            r@ == self@,
            r.wf() == self.wf(),
    {
        Node {
            name: self.name.clone(),
            mode: self.mode,
            uid: self.uid,
            gid: self.gid,
            ctime: self.ctime,
            ctime_nsec: self.ctime_nsec,
            mtime: self.mtime,
            mtime_nsec: self.mtime_nsec,
            parent: self.parent,
            next: self.next,
            extents: self.extents,
        }
    }
}

} // verus!
