use vstd::prelude::*;
use crate::disk::Disk;
use crate::error::Error;
use crate::flag::{MODE_DIR, MODE_FILE};
use crate::header::{decode_header, Header, HEADER_BLOCK, SIGNATURE, VERSION};
use crate::model::{chain_ok, extent_at, layout_ok, link_ok, slot_ok, Chain, Model, Owner};
use crate::codec::le64;
use crate::node::{decode_node, Extent, Node, NodeView};

verus! {

/// The block of the root directory in a fresh image.
pub const ROOT_BLOCK: u64 = 3;

/// The block of the free list's first record in a fresh image.
pub const FREE_BLOCK: u64 = 4;

/// A filesystem on a disk. It owns the disk; every operation takes the
/// filesystem by exclusive reference.
pub struct FileSystem<D: Disk> {
    pub disk: D,
    pub header: Header,
    pub model: Ghost<Model>,
}

/// The layout of a fresh image of `n` blocks.
pub open spec fn fresh_model(n: int) -> Model {
    Model {
        owner: Map::total(
            |b: int|
                if b < 3 {
                    Owner::Reserved
                } else if b == 3 {
                    Owner::Link { head: 3 }
                } else if b == 4 {
                    Owner::FreeLink
                } else {
                    Owner::Held { node: 4, slot: 0 }
                },
        ),
        free: Chain {
            blocks: seq![4int],
            base: Seq::new(
                17,
                |k: int|
                    if k == 0 {
                        0
                    } else {
                        512 * (n - 5)
                    },
            ),
            data: Seq::empty(),
        },
        chains: Map::empty().insert(
            3int,
            Chain { blocks: seq![3int], base: Seq::new(17, |k: int| 0int), data: Seq::empty() },
        ),
    }
}

/// The block numbers that a directory's bytes spell: one little-endian
/// `u64` for every eight bytes.
pub open spec fn pointers(data: Seq<u8>) -> Seq<u64> {
    Seq::new((data.len() / 8) as nat, |i: int| le64(data, 8 * i))
}

/// What a write of `buf` at `offset` makes of `data`: `after` holds `buf`
/// from `offset` on, is as long as that takes and no shorter than `data`,
/// and holds what `data` held wherever `buf` did not go.
pub open spec fn written(data: Seq<u8>, offset: int, buf: Seq<u8>, after: Seq<u8>) -> bool {
    &&& after.len() == (if offset + buf.len() > data.len() {
        offset + buf.len()
    } else {
        data.len() as int
    })
    &&& forall|q: int| offset <= q < offset + buf.len() ==> #[trigger] after[q] == buf[q - offset]
    &&& forall|q: int|
        0 <= q < data.len() && !(offset <= q < offset + buf.len()) ==> #[trigger] after[q] == data[q]
}

/// What a read of up to `want` bytes at `offset` gets out of `data`.
pub open spec fn read_back(data: Seq<u8>, offset: int, want: int) -> Seq<u8> {
    if offset >= data.len() || want <= 0 {
        Seq::empty()
    } else if offset + want > data.len() {
        data.subrange(offset, data.len() as int)
    } else {
        data.subrange(offset, offset + want)
    }
}

impl<D: Disk> FileSystem<D> {
    /// The blocks that the directory at `block` lists, in order.
    pub open spec fn kids(&self, block: u64) -> Seq<u64> {
        pointers(self.data(block))
    }

    /// The directory at `block` lists whole block numbers, none of them
    /// twice, and each is a node that names the directory as its parent.
    pub open spec fn dir_ok(&self, block: u64) -> bool {
        &&& self.data(block).len() % 8 == 0
        &&& self.kids(block).no_duplicates()
        &&& forall|i: int|
            0 <= i < self.kids(block).len() ==> self.is_node(#[trigger] self.kids(block)[i])
                && self.record(self.kids(block)[i]).parent == block && self.kids(block)[i] != block
        &&& self.names_differ(block)
        &&& self.neat(block)
    }

    /// No two entries of the directory at `block` go by the same name.
    pub open spec fn names_differ(&self, block: u64) -> bool {
        forall|i: int, j: int|
            0 <= i < j < self.kids(block).len() ==> self.record(#[trigger] self.kids(block)[i]).name
                != self.record(#[trigger] self.kids(block)[j]).name
    }

    /// The root is a directory without a parent, and every directory lists
    /// its own children and nothing else.
    pub open spec fn tree_ok(&self) -> bool {
        &&& self.record(self.header.root).is_dir()
        &&& self.record(self.header.root).parent == 0
        &&& forall|k: u64| #[trigger]
            self.is_node(k) && self.record(k).is_dir() ==> self.dir_ok(k)
        &&& forall|k: u64| #[trigger] self.is_node(k) ==> self.neat(k) && self.packed(k)
    }

    /// Whether `disk`, with `header` in its header block, holds a proper
    /// filesystem that is laid out as `m` says.
    pub open spec fn holds(disk: D, header: Header, m: Model) -> bool {
        (FileSystem { disk, header, model: Ghost(m) }).valid()
    }

    /// The image is a proper filesystem: laid out as the model says, with a
    /// proper directory tree.
    pub open spec fn valid(&self) -> bool {
        self.wf() && self.tree_ok()
    }

    /// The image is laid out as the model says: the header is valid, the
    /// free list and every node are proper chains, and no block serves two
    /// of them.
    pub open spec fn wf(&self) -> bool {
        &&& self.disk.inv()
        &&& layout_ok(self.disk@, self.header, self.model@)
    }

    /// Whether a node's first record stands at `block`.
    pub open spec fn is_node(&self, block: u64) -> bool {
        self.model@.chains.contains_key(block as int)
    }

    /// Whether a chain starts at `block`: a node's, or the free list's.
    pub open spec fn has_chain(&self, block: u64) -> bool {
        self.is_node(block) || block == self.header.free
    }

    /// The chain that starts at `block`.
    pub open spec fn chain(&self, block: u64) -> Chain {
        if block == self.header.free {
            self.model@.free
        } else {
            self.model@.chains[block as int]
        }
    }

    /// The bytes that the node at `block` holds.
    pub open spec fn data(&self, block: u64) -> Seq<u8> {
        self.model@.chains[block as int].data
    }

    /// The record that stands at `block`.
    pub open spec fn record(&self, block: u64) -> NodeView {
        decode_node(self.disk@[block as int])
    }

    /// The blocks that could be allocated: those of the free extents, and
    /// the records of the free list after the first, which return to the
    /// list as they empty.
    pub open spec fn free_blocks(&self) -> int {
        self.model@.free.total() / 512 + self.model@.free.blocks.len() - 1
    }

    /// Whether `block` is marked loose: in no extent and no chain.
    pub open spec fn loose(&self, block: int) -> bool {
        self.model@.owner[block] == Owner::Loose
    }

    /// The blocks of `[start, start + blocks)` lie behind the header, within
    /// the image, and are all loose.
    pub open spec fn range_loose(&self, start: u64, blocks: u64) -> bool {
        &&& 3 <= start
        &&& start + blocks <= self.disk@.len()
        &&& forall|x: int| start <= x < start + blocks ==> #[trigger] self.loose(x)
    }

    /// The loose blocks of `self` are those of `before`, and those of
    /// `[add, add_end)`, but for those of `[sub, sub_end)`.
    pub open spec fn loose_moved(&self, before: &Self, add: int, add_end: int, sub: int, sub_end: int) -> bool {
        forall|x: int|
            0 <= x < before.disk@.len() ==> #[trigger] self.loose(x) == ((before.loose(x) || add <= x
                < add_end) && !(sub <= x < sub_end))
    }

    /// The loose blocks of `self` are those of `before`.
    pub open spec fn loose_same(&self, before: &Self) -> bool {
        self.loose_moved(before, 0, 0, 0, 0)
    }

    /// Whether block `x` is part of the free list: one of its records, or
    /// inside one of their extents.
    pub open spec fn is_free(&self, x: int) -> bool {
        let o = self.model@.owner;
        o[x] is FreeLink || (o[x] is Held && o[o[x]->node] is FreeLink)
    }

    /// No block is loose: every block behind the header is free or part of
    /// a node.
    pub open spec fn tight(&self) -> bool {
        forall|x: int| 0 <= x < self.disk@.len() ==> !#[trigger] self.loose(x)
    }

    /// Whether `x` is part of a node: one of its records, or inside one of
    /// their extents.
    pub open spec fn node_side(&self, x: int) -> bool {
        let o = self.model@.owner;
        o[x] is Link || (o[x] is Held && o[o[x]->node] is Link)
    }

    /// The nodes of `self` are those of `before`, with the same records and
    /// the same bytes in the same blocks.
    pub open spec fn nodes_kept(&self, before: &Self) -> bool {
        &&& self.model@.chains == before.model@.chains
        &&& self.disk@.len() == before.disk@.len()
        &&& self.disk.reliable() == before.disk.reliable()
        &&& self.header.root == before.header.root
        &&& self.header.size == before.header.size
        &&& forall|x: int| #[trigger]
            before.node_side(x) ==> self.model@.owner[x] == before.model@.owner[x] && (0 <= x
                < self.disk@.len() ==> self.disk@[x] == before.disk@[x])
    }

    /// A node holds as many bytes as its extents are long, all together.
    pub proof fn lemma_len_is_data_len(&self, block: u64)
        requires
            self.wf(),
            self.is_node(block),
        ensures
            self.chain(block) == self.model@.chains[block as int],
            self.chain(block).total() == self.data(block).len(),
            block != 0,
    {
        let m = self.model@;
        assert(link_ok(self.disk@, m.owner, m.free, Owner::FreeLink, false, 0));
        assert(link_ok(
            self.disk@,
            m.owner,
            m.chains[block as int],
            Owner::Link { head: block as int },
            true,
            0,
        ));
    }

    /// Where nothing differs, the nodes are kept.
    pub proof fn lemma_same_kept(&self, before: &Self)
        requires
            self.same_as(before),
        ensures
            self.nodes_kept(before),
    {
    }

    /// What two steps keep, both together keep.
    pub proof fn lemma_nodes_kept_twice(&self, mid: &Self, before: &Self)
        requires
            mid.nodes_kept(before),
            self.nodes_kept(mid),
        ensures
            self.nodes_kept(before),
    {
        assert forall|x: int| #[trigger] before.node_side(x) implies self.model@.owner[x]
            == before.model@.owner[x] && (0 <= x < self.disk@.len() ==> self.disk@[x]
            == before.disk@[x]) by {
            let o = before.model@.owner;
            if o[x] is Held {
                assert(before.node_side(o[x]->node));
            }
            assert(mid.node_side(x));
        }
    }

    /// Every block that was loose in `before`, but for those of
    /// `[start, start + blocks)`, is still loose and holds what it held.
    pub open spec fn loose_kept(&self, before: &Self, start: int, blocks: int) -> bool {
        forall|x: int|
            0 <= x < self.disk@.len() && #[trigger] before.loose(x) && !(start <= x < start
                + blocks) ==> self.loose(x) && self.disk@[x] == before.disk@[x]
    }

    /// Between `before` and `self` nothing changed but bytes inside the
    /// extents of the node at `block`: every record, the free list, the
    /// marks and the bytes of every other node are as they were.
    pub open spec fn only_data_changed(&self, before: &Self, block: u64) -> bool {
        let m = self.model@;
        let m0 = before.model@;
        &&& self.header == before.header
        &&& self.disk.reliable() == before.disk.reliable()
        &&& self.disk@.len() == before.disk@.len()
        &&& m.owner == m0.owner
        &&& m.free == m0.free
        &&& m.chains.dom() == m0.chains.dom()
        &&& forall|k: int| m.chains.contains_key(k) && k != block ==> #[trigger] m.chains[k] == m0.chains[k]
        &&& m.chains[block as int].blocks == m0.chains[block as int].blocks
        &&& m.chains[block as int].base == m0.chains[block as int].base
        &&& m.chains[block as int].data.len() == m0.chains[block as int].data.len()
        &&& forall|x: int|
            0 <= x < self.disk@.len() && !(#[trigger] m0.owner[x] is Held
                && m0.chains[block as int].blocks.contains(m0.owner[x]->node)) ==> self.disk@[x]
                == before.disk@[x]
    }

    /// Every node but the one at `block` is as it was in `before`: the same
    /// nodes exist, each with its record and its bytes.
    pub open spec fn others_kept(&self, before: &Self, block: u64) -> bool {
        let m = self.model@;
        let m0 = before.model@;
        &&& self.disk@.len() == before.disk@.len()
        &&& self.disk.reliable() == before.disk.reliable()
        &&& self.header.root == before.header.root
        &&& self.header.size == before.header.size
        &&& m.chains.dom() == m0.chains.dom()
        &&& forall|k: int|
            m0.chains.contains_key(k) && k != block ==> #[trigger] m.chains[k] == m0.chains[k]
                && self.disk@[k] == before.disk@[k]
    }

    /// Nothing differs between `self` and `other`.
    pub open spec fn same_as(&self, other: &Self) -> bool {
        &&& self.disk@ == other.disk@
        &&& self.disk.reliable() == other.disk.reliable()
        &&& self.header == other.header
        &&& self.model@ == other.model@
    }

    /// Formats `disk`: the header in block 2, an empty root directory in
    /// block 3, and a free list in block 4 that holds every block after it.
    pub fn create(disk: D, ctime: u64, ctime_nsec: u32) -> (r: Result<Self, Error>)
        requires
            disk.inv(),
        ensures
            match r {
                Ok(fs) => {
                    &&& fs.valid()
                    &&& fs.disk@.len() == disk@.len()
                    &&& fs.disk.reliable() == disk.reliable()
                    &&& fs.header == (Header {
                        signature: SIGNATURE,
                        version: VERSION,
                        size: (512 * disk@.len()) as u64,
                        root: 3,
                        free: 4,
                    })
                    &&& fs.model@ == fresh_model(disk@.len() as int)
                    &&& fs.tight()
                    &&& forall|n: int| n <= disk@.len() - 5 ==> #[trigger] fs.can_give(n)
                    &&& forall|len: int| len > 0 ==> #[trigger] fs.growth_run(3, len) == (len + 511) / 512
                    &&& fs.record(3).is_dir()
                    &&& fs.data(3).len() == 0
                    &&& fs.free_blocks() == disk@.len() - 5
                },
                Err(e) => {
                    &&& e == Error::NoSpace || e == Error::Io
                    &&& e == Error::NoSpace <==> (disk@.len() < 5 || disk@.len() * 512 > u64::MAX)
                    &&& e == Error::Io ==> !disk.reliable()
                },
            },
    {
        let mut disk = disk;
        let n = disk.blocks();
        if n < 5 || n > u64::MAX / 512 {
            return Err(Error::NoSpace);
        }
        let mut free = Node::new(MODE_FILE, "free".as_bytes(), 0, 0, 0, ctime, ctime_nsec);
        free.extents[0] = Extent { start: 5, length: 512 * (n - 5) };
        let root = Node::new(MODE_DIR | 0o755, "root".as_bytes(), 0, 0, 0, ctime, ctime_nsec);
        let header = Header::new(512 * n, ROOT_BLOCK, FREE_BLOCK);
        let ghost d0 = disk@;
        let fb = free.encode();
        let rb = root.encode();
        let hb = header.encode();
        if disk.write(FREE_BLOCK, &fb).is_err() {
            return Err(Error::Io);
        }
        if disk.write(ROOT_BLOCK, &rb).is_err() {
            return Err(Error::Io);
        }
        if disk.write(HEADER_BLOCK, &hb).is_err() {
            return Err(Error::Io);
        }
        let fs = FileSystem { disk, header, model: Ghost(fresh_model(n as int)) };
        proof {
            let d = fs.disk@;
            let m = fs.model@;
            assert(d == d0.update(4, fb@).update(3, rb@).update(2, hb@));
            assert forall|b: int| 0 <= b < d.len() implies (#[trigger] d[b]).len() == 512 by {
                if b != 2 && b != 3 && b != 4 {
                    fs.disk.lemma_block_len(b);
                }
            }
            assert((0x4000u32 | 0o755u32) & 0xF000u32 == 0x4000u32) by (bit_vector);
            assert(fs.record(3).is_dir());
            assert forall|j: int| 0 <= j < 16 implies #[trigger] slot_ok(
                d,
                m.owner,
                m.free,
                false,
                0,
                j,
            ) by {
                assert(extent_at(d, 4, j) == free@.extents[j]);
            }
            assert(link_ok(d, m.owner, m.free, Owner::FreeLink, false, 0));
            assert(chain_ok(d, m.owner, m.free, Owner::FreeLink, false));
            let c = m.chains[3];
            assert forall|j: int| 0 <= j < 16 implies #[trigger] slot_ok(d, m.owner, c, true, 0, j) by {
                assert(extent_at(d, 3, j) == root@.extents[j]);
            }
            assert(link_ok(d, m.owner, c, Owner::Link { head: 3 }, true, 0));
            assert(chain_ok(d, m.owner, c, Owner::Link { head: 3 }, true));
            assert forall|i: int, j: int|
                0 <= i < m.free.blocks.len() && 0 <= j < 16 implies (#[trigger] extent_at(
                d,
                m.free.blocks[i],
                j,
            )).length % 512 == 0 by {
                assert(extent_at(d, 4, j) == free@.extents[j]);
            }
            assert(pointers(fs.data(3)) =~= Seq::<u64>::empty());
            assert forall|n: int| n <= d.len() - 5 implies #[trigger] fs.can_give(n) by {
                assert(extent_at(d, 4, 0) == free@.extents[0]);
                assert(crate::freelist::fits_at(d, m.free, 0, 0, n));
            }
            assert forall|len: int| len > 0 implies #[trigger] fs.growth_run(3, len) == (len + 511)
                / 512 by {
                assert(m.chains[3].blocks.last() == 3);
                assert(decode_node(d[3]).extents == root@.extents);
                crate::resize::lemma_none_used(root@.extents, 16);
            }
            assert forall|k: u64| #[trigger] fs.is_node(k) && fs.record(k).is_dir() implies fs.dir_ok(
                k,
            ) by {
                assert(k == 3);
            }
        }
        Ok(fs)
    }

    /// Opens the filesystem that `disk` holds, after checking its header.
    pub fn open(disk: D) -> (r: Result<Self, Error>)
        requires
            disk.inv(),
        ensures
            match r {
                Ok(fs) => {
                    &&& fs.disk@ == disk@
                    &&& fs.disk.inv()
                    &&& fs.disk.reliable() == disk.reliable()
                    &&& fs.header == decode_header(disk@[2])
                    &&& fs.header.valid()
                    &&& (exists|m: Model| Self::holds(disk, fs.header, m)) ==> fs.valid()
                },
                Err(e) => {
                    &&& e == Error::Invalid || e == Error::Io
                    &&& e == Error::Invalid ==> disk@.len() > 2 && !decode_header(disk@[2]).valid()
                    &&& e == Error::Io ==> !disk.reliable() || disk@.len() <= 2
                },
            },
    {
        let ghost given = disk;
        let mut disk = disk;
        let mut buf: [u8; 512] = [0u8; 512];
        if disk.read(HEADER_BLOCK, &mut buf).is_err() {
            return Err(Error::Io);
        }
        let header = Header::decode(&buf);
        if !header.valid() {
            return Err(Error::Invalid);
        }
        let ghost model: Model = choose|m: Model| Self::holds(given, header, m);
        let fs = FileSystem { disk, header, model: Ghost(model) };
        proof {
            if Self::holds(given, header, model) {
                let before = FileSystem { disk: given, header, model: Ghost(model) };
                fs.lemma_same_kept(&before);
                fs.lemma_tree_from_nodes_kept(&before);
            }
        }
        Ok(fs)
    }

    /// The number of blocks of the image.
    pub fn blocks(&self) -> (n: u64)
        requires
            self.disk.inv(),
        ensures
            n == self.disk@.len(),
    {
        self.disk.blocks()
    }

    /// Reads the record that stands at `block`.
    pub fn node(&mut self, block: u64) -> (r: Result<(u64, Node), Error>)
        requires
            old(self).disk.inv(),
        ensures
            final(self).disk.inv(),
            final(self).same_as(old(self)),
            match r {
                Ok((b, n)) => {
                    &&& b == block
                    &&& block < old(self).disk@.len()
                    &&& n.wf()
                    &&& n@ == old(self).record(block)
                },
                Err(e) => e == Error::Io && !(old(self).disk.reliable() && block < old(self).disk@.len()),
            },
    {
        let mut buf: [u8; 512] = [0u8; 512];
        if self.disk.read(block, &mut buf).is_err() {
            return Err(Error::Io);
        }
        Ok((block, Node::decode(&buf)))
    }

    /// Writes `node` into `block`. The layout model is the caller's to keep.
    pub(crate) fn store(&mut self, block: u64, node: &Node) -> (r: Result<(), Error>)
        requires
            old(self).disk.inv(),
            node.wf(),
        ensures
            final(self).disk.inv(),
            final(self).disk.reliable() == old(self).disk.reliable(),
            final(self).header == old(self).header,
            final(self).model@ == old(self).model@,
            match r {
                Ok(()) => {
                    &&& block < old(self).disk@.len()
                    &&& final(self).disk@ == old(self).disk@.update(
                        block as int,
                        final(self).disk@[block as int],
                    )
                    &&& final(self).disk@[block as int].len() == 512
                    &&& final(self).record(block) == node@
                },
                Err(e) => e == Error::Io && final(self).disk@ == old(self).disk@ && !(old(
                    self,
                ).disk.reliable() && block < old(self).disk@.len()),
            },
    {
        let buf = node.encode();
        if self.disk.write(block, &buf).is_err() {
            return Err(Error::Io);
        }
        Ok(())
    }

    /// The number of bytes that the chain starting at `block` holds: the sum
    /// of the lengths of its extents, over all its records.
    pub fn node_len(&mut self, block: u64) -> (r: Result<u64, Error>)
        requires
            old(self).disk.inv(),
        ensures
            final(self).disk.inv(),
            final(self).same_as(old(self)),
            block == 0 ==> r == Err::<u64, Error>(Error::NotFound),
            old(self).wf() && old(self).has_chain(block) ==> match r {
                Ok(n) => n == old(self).chain(block).total(),
                Err(e) => e == Error::Io && !old(self).disk.reliable(),
            },
            old(self).wf() && old(self).is_node(block) ==> match r {
                Ok(n) => n == old(self).data(block).len(),
                Err(e) => e == Error::Io && !old(self).disk.reliable(),
            },
    {
        proof {
            if self.wf() && self.is_node(block) {
                self.lemma_len_is_data_len(block);
                crate::content::lemma_node_not_free(
                    self.disk@,
                    self.header,
                    self.model@,
                    block as int,
                );
            }
        }
        if block == 0 {
            proof {
                if self.wf() && self.has_chain(block) {
                    let c = self.chain(block);
                    assert(link_ok(
                        self.disk@,
                        self.model@.owner,
                        c,
                        if block == self.header.free {
                            Owner::FreeLink
                        } else {
                            Owner::Link { head: 0 }
                        },
                        block != self.header.free,
                        0,
                    ));
                }
            }
            return Err(Error::NotFound);
        }
        let limit = self.disk.blocks();
        let ghost c = self.chain(block);
        let ghost known = self.wf() && self.has_chain(block);
        let ghost tag = if block == self.header.free {
            Owner::FreeLink
        } else {
            Owner::Link { head: block as int }
        };
        let ghost content = block != self.header.free;
        let ghost sure = known && content && self.disk.reliable();
        let mut b = block;
        let mut total: u64 = 0;
        let mut steps: u64 = 0;
        while b != 0
            invariant
                self.disk.inv(),
                self.same_as(old(self)),
                limit == self.disk@.len(),
                steps <= limit,
                block != 0,
                sure == (known && content && old(self).disk.reliable()),
                content == (block != old(self).header.free),
                old(self).wf() && old(self).is_node(block) ==> content,
                known == (old(self).wf() && old(self).has_chain(block)),
                known ==> chain_ok(self.disk@, self.model@.owner, c, tag, content),
                known ==> c == old(self).chain(block),
                known ==> steps <= c.blocks.len(),
                known && b != 0 ==> steps < c.blocks.len() && b == c.blocks[steps as int],
                known && b == 0 ==> steps == c.blocks.len(),
                known ==> total == c.base[16 * steps],
            decreases limit - steps,
        {
            proof {
                if known {
                    crate::rewrite::lemma_chain_short(self.disk@, self.model@.owner, c, tag, content);
                    assert(link_ok(self.disk@, self.model@.owner, c, tag, content, steps as int));
                }
            }
            if steps >= limit {
                return Err(Error::Io);
            }
            let n = match self.node(b) {
                Ok((_, n)) => n,
                Err(_) => {
                    return Err(Error::Io);
                },
            };
            let mut j: usize = 0;
            while j < 16
                invariant
                    j <= 16,
                    block != 0,
                    sure == (known && content && old(self).disk.reliable()),
                    known == (old(self).wf() && old(self).has_chain(block)),
                    limit == self.disk@.len(),
                    old(self).wf() && old(self).is_node(block) ==> content,
                    known ==> chain_ok(self.disk@, self.model@.owner, c, tag, content),
                    self.disk.inv(),
                    self.same_as(old(self)),
                    n@ == self.record(b),
                    known ==> c.base.len() == 16 * c.blocks.len() + 1,
                    known ==> steps < c.blocks.len() && b == c.blocks[steps as int],
                    known ==> link_ok(self.disk@, self.model@.owner, c, tag, content, steps as int),
                    known ==> total == c.base[16 * steps + j],
                decreases 16 - j,
            {
                proof {
                    if known {
                        assert(slot_ok(
                            self.disk@,
                            self.model@.owner,
                            c,
                            content,
                            steps as int,
                            j as int,
                        ));
                    }
                }
                proof {
                    if known {
                        crate::count::lemma_total_bound(
                            self.disk@,
                            self.model@.owner,
                            c,
                            tag,
                            content,
                        );
                        crate::rewrite::lemma_base_mono(
                            self.disk@,
                            self.model@.owner,
                            c,
                            tag,
                            content,
                            16 * steps + j + 1,
                            16 * (c.blocks.len() as int),
                        );
                        assert(slot_ok(
                            self.disk@,
                            self.model@.owner,
                            c,
                            content,
                            steps as int,
                            j as int,
                        ));
                        assert(extent_at(self.disk@, b as int, j as int) == n@.extents[j as int]);
                        assert(c.total() <= u64::MAX);
                        assert(total + n@.extents[j as int].length <= u64::MAX);
                    }
                }
                total = match total.checked_add(n.extents[j].length) {
                    Some(t) => t,
                    None => {
                        return Err(Error::Io);
                    },
                };
                j += 1;
            }
            proof {
                if known && steps + 1 < c.blocks.len() {
                    assert(link_ok(self.disk@, self.model@.owner, c, tag, content, steps + 1));
                }
            }
            b = n.next;
            steps += 1;
        }
        Ok(total)
    }
}

} // verus!
