use vstd::prelude::*;
use crate::header::{decode_header, Header};
use crate::node::{decode_node, Extent, NodeView};

verus! {

/// What a block is for.
pub enum Owner {
    /// Boot code or the header.
    Reserved,
    /// Neither free nor part of any node: taken from the free list and not
    /// yet put to use, or given up and not yet returned.
    Loose,
    /// A record of the free list.
    FreeLink,
    /// A record of the node whose first record stands at `head`.
    Link { head: int },
    /// Inside the extent that stands in slot `slot` of the record at `node`.
    Held { node: int, slot: int },
}

impl Owner {
    /// Whether the block is part of the free list: one of its records, or
    /// free.
    pub open spec fn is_free(self) -> bool {
        self is FreeLink || self is Held
    }
}

/// A chain of records and what their extents hold.
pub struct Chain {
    /// The blocks of the chain's records, the first one first.
    pub blocks: Seq<int>,
    /// `base[16 * i + j]` is the number of bytes that the extents before
    /// slot `j` of record `i` hold; the last entry is the chain's length.
    pub base: Seq<int>,
    /// The bytes that the extents hold, in order.
    pub data: Seq<u8>,
}

impl Chain {
    /// The number of bytes the chain holds.
    pub open spec fn total(self) -> int {
        self.base[16 * (self.blocks.len() as int)]
    }

    /// The number of bytes that stand before slot `j` of record `i`.
    pub open spec fn pos(self, i: int, j: int) -> int {
        self.base[16 * i + j]
    }

    /// The block that record `i` names as its successor.
    pub open spec fn next_of(self, i: int) -> int {
        if i + 1 < self.blocks.len() {
            self.blocks[i + 1]
        } else {
            0
        }
    }
}

/// The layout of an image: what every block is for, the free list, and the
/// chain of every node.
pub struct Model {
    pub owner: Map<int, Owner>,
    pub free: Chain,
    pub chains: Map<int, Chain>,
}

/// The extent in slot `j` of the record that block `b` holds.
pub open spec fn extent_at(d: Seq<Seq<u8>>, b: int, j: int) -> Extent {
    decode_node(d[b]).extents[j]
}

/// The blocks of extent `e`, which stands in slot `j` of the record at `b`,
/// lie within the image and are marked as held by that slot.
pub open spec fn extent_owned(owner: Map<int, Owner>, n: int, b: int, j: int, e: Extent) -> bool {
    e.length > 0 ==> {
        &&& 3 <= e.start
        &&& e.start + e.span() <= n
        &&& forall|x: int|
            e.start <= x < e.start + e.span() ==> #[trigger] owner[x] == (Owner::Held {
                node: b,
                slot: j,
            })
    }
}

/// The blocks of extent `e` hold the bytes of `data` from `at` on.
pub open spec fn extent_holds(d: Seq<Seq<u8>>, data: Seq<u8>, at: int, e: Extent) -> bool {
    forall|x: int, o: int|
        e.start <= x && 0 <= o < 512 && 512 * (x - e.start) + o < e.length ==> #[trigger] d[x][o]
            == data[at + 512 * (x - e.start) + o]
}

/// Slot `j` of record `i` of the chain is proper: the place behind it is
/// the place before it and the length of its extent, the blocks of the
/// extent are marked as held by the slot, and, where the chain has content,
/// they hold the bytes of the chain from that place on.
pub open spec fn slot_ok(
    d: Seq<Seq<u8>>,
    owner: Map<int, Owner>,
    c: Chain,
    content: bool,
    i: int,
    j: int,
) -> bool {
    let b = c.blocks[i];
    let e = extent_at(d, b, j);
    &&& c.base[16 * i + j + 1] == c.base[16 * i + j] + e.length
    &&& extent_owned(owner, d.len() as int, b, j, e)
    &&& content ==> extent_holds(d, c.data, c.base[16 * i + j], e)
}

/// Record `i` of the chain is proper: its block lies behind the header and
/// carries the chain's mark, it names the next record of the chain, and its
/// slots are proper.
pub open spec fn link_ok(
    d: Seq<Seq<u8>>,
    owner: Map<int, Owner>,
    c: Chain,
    tag: Owner,
    content: bool,
    i: int,
) -> bool {
    let b = c.blocks[i];
    &&& 3 <= b < d.len()
    &&& owner[b] == tag
    &&& decode_node(d[b]).next == c.next_of(i)
    &&& forall|j: int| 0 <= j < 16 ==> #[trigger] slot_ok(d, owner, c, content, i, j)
}

/// The records of `c` are linked in order, each marked with `tag`, their
/// extents own their blocks, and `base` adds up. With `content`, the extents
/// hold `data`.
pub open spec fn chain_ok(
    d: Seq<Seq<u8>>,
    owner: Map<int, Owner>,
    c: Chain,
    tag: Owner,
    content: bool,
) -> bool {
    &&& c.blocks.len() >= 1
    &&& c.blocks.no_duplicates()
    &&& c.base.len() == 16 * c.blocks.len() + 1
    &&& c.base[0] == 0
    &&& forall|i: int| 0 <= i < c.blocks.len() ==> #[trigger] link_ok(d, owner, c, tag, content, i)
    &&& content ==> c.data.len() == c.total()
    &&& content ==> c.total() <= u64::MAX
}

/// Every extent of the free list is a whole number of blocks.
pub open spec fn free_aligned(d: Seq<Seq<u8>>, c: Chain) -> bool {
    forall|i: int, j: int|
        0 <= i < c.blocks.len() && 0 <= j < 16 ==> (#[trigger] extent_at(
            d,
            c.blocks[i],
            j,
        )).length % 512 == 0
}

/// Whether block `x` lies inside extent `e`.
pub open spec fn covers(e: Extent, x: int) -> bool {
    e.length > 0 && e.start <= x < e.start + e.span()
}

/// The mark of block `x` tells the truth: a block marked reserved stands
/// before the first record, a block marked as a record is one of its chain,
/// and a block marked as held lies inside the extent that is said to hold
/// it, in a record of some chain.
pub open spec fn mark_true(d: Seq<Seq<u8>>, m: Model, x: int) -> bool {
    match m.owner[x] {
        Owner::Reserved => x < 3,
        Owner::Loose => true,
        Owner::FreeLink => m.free.blocks.contains(x),
        Owner::Link { head } => m.chains.contains_key(head) && m.chains[head].blocks.contains(x),
        Owner::Held { node, slot } => {
            &&& 0 <= node < d.len()
            &&& m.owner[node] is FreeLink || m.owner[node] is Link
            &&& 0 <= slot < 16
            &&& covers(extent_at(d, node, slot), x)
        },
    }
}

/// Every mark tells the truth.
pub open spec fn marks_true(d: Seq<Seq<u8>>, m: Model) -> bool {
    forall|x: int| 0 <= x < d.len() ==> #[trigger] mark_true(d, m, x)
}

/// The image `d` with header `h` is laid out as `m` says.
pub open spec fn layout_ok(d: Seq<Seq<u8>>, h: Header, m: Model) -> bool {
    &&& d.len() >= 5
    &&& d.len() * 512 <= u64::MAX
    &&& forall|b: int| 0 <= b < d.len() ==> (#[trigger] d[b]).len() == 512
    &&& h == decode_header(d[2])
    &&& h.valid()
    &&& h.size == 512 * d.len()
    &&& forall|b: int| 0 <= b < 3 ==> #[trigger] m.owner[b] == Owner::Reserved
    &&& m.free.blocks[0] == h.free
    &&& chain_ok(d, m.owner, m.free, Owner::FreeLink, false)
    &&& free_aligned(d, m.free)
    &&& m.chains.contains_key(h.root as int)
    &&& marks_true(d, m)
    &&& forall|k: int| #[trigger]
        m.chains.contains_key(k) ==> m.chains[k].blocks[0] == k && chain_ok(
            d,
            m.owner,
            m.chains[k],
            Owner::Link { head: k },
            true,
        )
}

} // verus!
