use vstd::prelude::*;
use crate::content::lemma_node_not_free;
use crate::disk::Disk;
use crate::error::Error;
use crate::fs::FileSystem;
use crate::node::{Node, NodeView};

verus! {

/// The kinds of node that a host is told of.
#[derive(Clone, Copy, Debug, PartialEq, Eq, Structural)]
pub enum FileKind {
    Directory,
    RegularFile,
}

/// What a host is told of a node. Permissions, links, owner and times are
/// the same for every node.
#[derive(Clone, Copy, Debug, PartialEq, Eq, Structural)]
pub struct Attr {
    pub ino: u64,
    pub size: u64,
    pub blocks: u64,
    pub time_sec: i64,
    pub time_nsec: i32,
    pub kind: FileKind,
    pub perm: u16,
    pub nlink: u32,
    pub uid: u32,
    pub gid: u32,
    pub rdev: u32,
    pub flags: u32,
}

/// One line of a directory listing.
#[derive(Debug)]
pub struct Entry {
    pub ino: u64,
    pub offset: u64,
    pub kind: FileKind,
    pub name: Vec<u8>,
}

/// What a host is told of the filesystem as a whole.
#[derive(Clone, Copy, Debug, PartialEq, Eq, Structural)]
pub struct StatFs {
    pub blocks: u64,
    pub bfree: u64,
    pub bavail: u64,
    pub files: u64,
    pub ffree: u64,
    pub bsize: u32,
    pub namelen: u32,
    pub frsize: u32,
}

/// The inode number of `block` where the root directory stands at `root`:
/// `block - root + 1`, so that the root has number 1, the block behind it 2,
/// and the block before it 0. A block further before the root has none.
pub open spec fn inode_of(root: u64, block: u64) -> Option<u64> {
    if block + 1 >= root && block + 1 - root <= u64::MAX {
        Some((block + 1 - root) as u64)
    } else {
        None
    }
}

/// The block of inode number `ino` where the root directory stands at
/// `root`: `root + ino - 1`, where that is a block number.
pub open spec fn block_of(root: u64, ino: u64) -> Option<u64> {
    if root + ino >= 1 && root + ino - 1 <= u64::MAX {
        Some((root + ino - 1) as u64)
    } else {
        None
    }
}

/// Inode numbers and blocks stand for one another.
pub proof fn lemma_inode_round_trip(root: u64, block: u64, ino: u64)
    ensures
        inode_of(root, block) == Some(ino) ==> block_of(root, ino) == Some(block),
        block_of(root, ino) == Some(block) ==> inode_of(root, block) == Some(ino),
{
}

/// The inode number of `block`, where it has one.
pub fn block_inode(root: u64, block: u64) -> (r: Option<u64>)
    ensures
        r == inode_of(root, block),
{
    if block >= root {
        (block - root).checked_add(1)
    } else if root - block == 1 {
        Some(0)
    } else {
        None
    }
}

/// The block that inode number `ino` stands for, where there is one.
pub fn inode_block(root: u64, ino: u64) -> (r: Option<u64>)
    ensures
        r == block_of(root, ino),
{
    if ino >= 1 {
        root.checked_add(ino - 1)
    } else if root >= 1 {
        Some(root - 1)
    } else {
        None
    }
}

/// The kind of a node with record `rec`.
pub open spec fn kind_of(rec: NodeView) -> FileKind {
    if rec.is_dir() {
        FileKind::Directory
    } else {
        FileKind::RegularFile
    }
}

/// What a host is told of the node with number `ino` and record `rec` that
/// holds `size` bytes.
pub open spec fn attr_for(ino: u64, rec: NodeView, size: u64) -> Attr {
    Attr {
        ino,
        size,
        blocks: ((size + 511) / 512) as u64,
        time_sec: 0,
        time_nsec: 0,
        kind: kind_of(rec),
        perm: 0o777,
        nlink: 1,
        uid: 0,
        gid: 0,
        rdev: 0,
        flags: 0,
    }
}

/// What a host is told of the node with number `ino` and record `node`
/// that holds `size` bytes.
pub fn attr_of(ino: u64, node: &Node, size: u64) -> (a: Attr)
    ensures
        a == attr_for(ino, node@, size),
{
    let blocks = if size % 512 == 0 {
        size / 512
    } else {
        size / 512 + 1
    };
    Attr {
        ino,
        size,
        blocks,
        time_sec: 0,
        time_nsec: 0,
        kind: if node.is_dir() {
            FileKind::Directory
        } else {
            FileKind::RegularFile
        },
        perm: 0o777,
        nlink: 1,
        uid: 0,
        gid: 0,
        rdev: 0,
        flags: 0,
    }
}

impl<D: Disk> FileSystem<D> {
    /// What a host is told of the node at `block`.
    pub fn attr(&mut self, block: u64) -> (r: Result<Attr, Error>)
        requires
            old(self).disk.inv(),
        ensures
            final(self).disk.inv(),
            final(self).same_as(old(self)),
            old(self).wf() && old(self).is_node(block) ==> match r {
                Ok(a) => inode_of(old(self).header.root, block) matches Some(ino) && a == attr_for(
                    ino,
                    old(self).record(block),
                    old(self).data(block).len() as u64,
                ),
                Err(e) => e == Error::Io && !(old(self).disk.reliable() && inode_of(
                    old(self).header.root,
                    block,
                ) is Some),
            },
    {
        proof {
            if self.wf() && self.is_node(block) {
                lemma_node_not_free(self.disk@, self.header, self.model@, block as int);
            }
        }
        let node = match self.node(block) {
            Ok((_, n)) => n,
            Err(_) => {
                return Err(Error::Io);
            },
        };
        let size = match self.node_len(block) {
            Ok(n) => n,
            Err(_) => {
                return Err(Error::Io);
            },
        };
        match block_inode(self.header.root, block) {
            Some(ino) => Ok(attr_of(ino, &node, size)),
            None => Err(Error::Io),
        }
    }

    /// The directory at `parent` and every block that it lists have an
    /// inode number.
    pub open spec fn numbered(&self, parent: u64) -> bool {
        &&& inode_of(self.header.root, parent) is Some
        &&& forall|i: int|
            0 <= i < self.kids(parent).len() ==> inode_of(
                self.header.root,
                #[trigger] self.kids(parent)[i],
            ) is Some
    }

    /// The listing of the directory at `parent`: the directory itself as
    /// `.` and as `..`, then its entries in order, each with its place in
    /// the listing.
    pub fn entries(&mut self, parent: u64) -> (r: Result<Vec<Entry>, Error>)
        requires
            old(self).disk.inv(),
        ensures
            final(self).disk.inv(),
            final(self).same_as(old(self)),
            old(self).valid() && old(self).is_node(parent) && old(self).numbered(parent)
                && old(self).disk.reliable() && old(self).data(parent).len() <= usize::MAX ==> !(r matches Err(
                Error::Io,
            )),
            old(self).wf() && old(self).is_node(parent) ==> match r {
                Ok(v) => {
                    let kids = old(self).kids(parent);
                    let root = old(self).header.root;
                    &&& old(self).record(parent).is_dir()
                    &&& v@.len() == kids.len() + 2
                    &&& inode_of(root, parent) == Some(v@[0].ino)
                    &&& v@[0].offset == 0 && v@[0].kind == FileKind::Directory && v@[0].name@
                        == seq![46u8]
                    &&& inode_of(root, parent) == Some(v@[1].ino)
                    &&& v@[1].offset == 1 && v@[1].kind == FileKind::Directory && v@[1].name@
                        == seq![46u8, 46u8]
                    &&& forall|i: int|
                        0 <= i < kids.len() ==> {
                            let e = #[trigger] v@[i + 2];
                            &&& inode_of(root, kids[i]) == Some(e.ino)
                            &&& e.offset == i + 2
                            &&& e.kind == kind_of(old(self).record(kids[i]))
                            &&& e.name@ == old(self).record(kids[i]).name
                        }
                },
                Err(e) => {
                    &&& e == Error::NotDir || e == Error::Io
                    &&& e == Error::NotDir ==> !old(self).record(parent).is_dir()
                },
            },
    {
        let ghost known = self.wf() && self.is_node(parent);
        proof {
            if known {
                lemma_node_not_free(self.disk@, self.header, self.model@, parent as int);
            }
        }
        let mut children: Vec<(u64, Node)> = Vec::new();
        match self.child_nodes(&mut children, parent) {
            Ok(()) => {},
            Err(Error::NotDir) => {
                return Err(Error::NotDir);
            },
            Err(_) => {
                return Err(Error::Io);
            },
        }
        let root = self.header.root;
        let me = match block_inode(root, parent) {
            Some(i) => i,
            None => {
                return Err(Error::Io);
            },
        };
        let mut out: Vec<Entry> = Vec::new();
        let mut dot: Vec<u8> = Vec::new();
        dot.push(46u8);
        let mut dotdot: Vec<u8> = Vec::new();
        dotdot.push(46u8);
        dotdot.push(46u8);
        assert(dot@ =~= seq![46u8]);
        assert(dotdot@ =~= seq![46u8, 46u8]);
        out.push(Entry { ino: me, offset: 0, kind: FileKind::Directory, name: dot });
        out.push(Entry { ino: me, offset: 1, kind: FileKind::Directory, name: dotdot });
        let count = children.len();
        let mut i: usize = 0;
        proof {
            if known {
                let kids = old(self).kids(parent);
                self.lemma_len_is_data_len(parent);
                assert forall|t: int| 0 <= t < children@.len() implies (#[trigger] children@[t]).0
                    == kids[t] by {
                    assert(children@[0 + t].0 == kids[t]);
                }
            }
        }
        while i < count
            invariant
                i <= count,
                count == children@.len(),
                out@.len() == i + 2,
                self.disk.inv(),
                self.same_as(old(self)),
                root == old(self).header.root,
                known == (old(self).wf() && old(self).is_node(parent)),
                known ==> children@.len() == old(self).kids(parent).len(),
                known ==> old(self).kids(parent).len() <= u64::MAX / 8,
                known ==> forall|t: int|
                    0 <= t < children@.len() ==> (#[trigger] children@[t]).0 == old(self).kids(
                        parent,
                    )[t],
                out@[0].ino == me && out@[0].offset == 0 && out@[0].kind == FileKind::Directory
                    && out@[0].name@ == seq![46u8],
                out@[1].ino == me && out@[1].offset == 1 && out@[1].kind == FileKind::Directory
                    && out@[1].name@ == seq![46u8, 46u8],
                forall|t: int|
                    0 <= t < i ==> {
                        let e = #[trigger] out@[t + 2];
                        &&& inode_of(root, children@[t].0) == Some(e.ino)
                        &&& e.offset == t + 2
                        &&& e.kind == kind_of(children@[t].1@)
                        &&& e.name@ == children@[t].1@.name
                    },
            decreases count - i,
        {
            proof {
                if known {
                    assert(children@[i as int].0 == old(self).kids(parent)[i as int]);
                }
            }
            let ino = match block_inode(root, children[i].0) {
                Some(v) => v,
                None => {
                    return Err(Error::Io);
                },
            };
            let offset: u64 = match (i as u64).checked_add(2) {
                Some(v) => v,
                None => {
                    return Err(Error::Io);
                },
            };
            let kind = if children[i].1.is_dir() {
                FileKind::Directory
            } else {
                FileKind::RegularFile
            };
            let name = vstd::slice::slice_to_vec(children[i].1.name());
            let ghost before = out@;
            out.push(Entry { ino, offset, kind, name });
            proof {
                assert forall|t: int| 0 <= t < i + 1 implies {
                    let e = #[trigger] out@[t + 2];
                    &&& inode_of(root, children@[t].0) == Some(e.ino)
                    &&& e.offset == t + 2
                    &&& e.kind == kind_of(children@[t].1@)
                    &&& e.name@ == children@[t].1@.name
                } by {
                    if t < i {
                        assert(out@[t + 2] == before[t + 2]);
                    }
                }
            }
            i += 1;
        }
        proof {
            if known {
                let kids = old(self).kids(parent);
                assert forall|t: int| 0 <= t < kids.len() implies {
                    let e = #[trigger] out@[t + 2];
                    &&& inode_of(root, kids[t]) == Some(e.ino)
                    &&& e.offset == t + 2
                    &&& e.kind == kind_of(old(self).record(kids[t]))
                    &&& e.name@ == old(self).record(kids[t]).name
                } by {
                    assert(children@[0 + t].0 == kids[t]);
                }
            }
        }
        Ok(out)
    }

    /// What a host is told of the filesystem as a whole: its size in
    /// blocks, and the blocks that the extents of the free list hold.
    pub fn statfs(&mut self) -> (r: Result<StatFs, Error>)
        requires
            old(self).disk.inv(),
        ensures
            final(self).disk.inv(),
            final(self).same_as(old(self)),
            old(self).wf() ==> match r {
                Ok(s) => {
                    &&& s.blocks == old(self).disk@.len()
                    &&& s.bfree == old(self).model@.free.total() / 512
                    &&& s.bavail == s.bfree
                    &&& s.files == 0 && s.ffree == 0 && s.bsize == 512 && s.frsize == 0
                    &&& s.namelen == 256
                },
                Err(e) => e == Error::Io && !old(self).disk.reliable(),
            },
    {
        let free = self.header.free;
        let size = match self.node_len(free) {
            Ok(n) => n,
            Err(_) => {
                proof {
                    if self.wf() && free == 0 {
                        assert(crate::model::link_ok(
                            self.disk@,
                            self.model@.owner,
                            self.model@.free,
                            crate::model::Owner::FreeLink,
                            false,
                            0,
                        ));
                    }
                }
                return Err(Error::Io);
            },
        };
        Ok(
            StatFs {
                blocks: self.header.size / 512,
                bfree: size / 512,
                bavail: size / 512,
                files: 0,
                ffree: 0,
                bsize: 512,
                namelen: 256,
                frsize: 0,
            },
        )
    }
}

} // verus!
