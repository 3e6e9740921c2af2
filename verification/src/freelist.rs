use vstd::prelude::*;
use crate::disk::Disk;
use crate::error::Error;
use crate::flag::MODE_FILE;
use crate::frame::{lemma_chain_frame, mark, shift, untouched, belongs};
use crate::fs::FileSystem;
use crate::header::{decode_header, Header, HEADER_BLOCK};
use crate::model::{
    chain_ok, covers, extent_at, extent_owned, free_aligned, layout_ok, link_ok, mark_true,
    marks_true, slot_ok, Chain, Model, Owner,
};
use crate::node::{decode_node, Extent, Node};
use crate::rewrite::{lemma_layout_rewrite_free, lemma_other_kept, marks_moved};

verus! {

/// Whether a run of `blocks` blocks from `start` ends where `e` begins or
/// begins where `e` ends, `e` being a whole number of blocks.
pub open spec fn adjacent(e: Extent, start: u64, blocks: u64) -> bool {
    &&& e.length > 0
    &&& e.length % 512 == 0
    &&& e.length + 512 * blocks <= u64::MAX
    &&& (e.start + e.length / 512 == start || start + blocks == e.start)
}

/// The extent that takes in the run: `e` grown at its end or at its start,
/// or the run alone where `e` is empty.
pub open spec fn merged(e: Extent, start: u64, blocks: u64) -> Extent {
    if e.length == 0 {
        Extent { start, length: (512 * blocks) as u64 }
    } else if e.start + e.length / 512 == start {
        Extent { start: e.start, length: (e.length + 512 * blocks) as u64 }
    } else {
        Extent { start, length: (e.length + 512 * blocks) as u64 }
    }
}

/// Slot `j` is where a freed run goes in a record with extents `exts`: the
/// first extent that the run touches, or, if it touches none, the first
/// empty slot.
pub open spec fn placed_at(exts: Seq<Extent>, start: u64, blocks: u64, j: int) -> bool {
    &&& 0 <= j < 16
    &&& adjacent(exts[j], start, blocks) || exts[j].length == 0
    &&& forall|k: int| 0 <= k < j ==> !adjacent(#[trigger] exts[k], start, blocks)
    &&& !adjacent(exts[j], start, blocks) ==> forall|k: int|
        0 <= k < 16 ==> !adjacent(#[trigger] exts[k], start, blocks) && (k < j ==> exts[k].length
            > 0)
}

/// The record has no room for a freed run: the run touches no extent, and
/// no slot is empty.
pub open spec fn no_place(exts: Seq<Extent>, start: u64, blocks: u64) -> bool {
    forall|k: int| 0 <= k < 16 ==> (#[trigger] exts[k]).length > 0 && !adjacent(exts[k], start, blocks)
}

/// Where a freed run goes in a record of the free list: into the first
/// extent that it touches; if there is none, into the first empty slot.
pub fn place(node: &Node, start: u64, blocks: u64) -> (r: Option<usize>)
    requires
        blocks >= 1,
        start + blocks <= u64::MAX / 512,
    ensures
        match r {
            Some(j) => placed_at(node@.extents, start, blocks, j as int),
            None => no_place(node@.extents, start, blocks),
        },
{
    let bytes = 512 * blocks;
    let mut j: usize = 0;
    while j < 16
        invariant
            j <= 16,
            bytes == 512 * blocks,
            start + blocks <= u64::MAX / 512,
            forall|k: int| 0 <= k < j ==> !adjacent(#[trigger] node@.extents[k], start, blocks),
        decreases 16 - j,
    {
        let e = node.extents[j];
        if e.length > 0 && e.length % 512 == 0 && e.length <= u64::MAX - bytes {
            if e.start == start + blocks {
                return Some(j);
            }
            if e.start <= start && start - e.start == e.length / 512 {
                return Some(j);
            }
        }
        j += 1;
    }
    let mut k: usize = 0;
    while k < 16
        invariant
            k <= 16,
            forall|t: int| 0 <= t < 16 ==> !adjacent(#[trigger] node@.extents[t], start, blocks),
            forall|t: int| 0 <= t < k ==> (#[trigger] node@.extents[t]).length > 0,
        decreases 16 - k,
    {
        if node.extents[k].length == 0 {
            return Some(k);
        }
        k += 1;
    }
    None
}

/// The free list after a run of loose blocks went into slot `j` of its
/// first record.
pub open spec fn free_after_put(m: Model, j: int, start: int, blocks: int) -> Model {
    Model {
        owner: mark(m.owner, start, start + blocks, Owner::Held { node: m.free.blocks[0], slot: j }),
        free: Chain { base: shift(m.free.base, j, 512 * blocks), ..m.free },
        chains: m.chains,
    }
}

/// The layout stays proper when a run of loose blocks goes into a slot of
/// the free list's first record.
pub proof fn lemma_free_put(
    d: Seq<Seq<u8>>,
    h: Header,
    m: Model,
    j: int,
    start: u64,
    blocks: u64,
    bytes: Seq<u8>,
)
    requires
        layout_ok(d, h, m),
        0 <= j < 16,
        blocks >= 1,
        3 <= start,
        start + blocks <= d.len(),
        forall|x: int| start <= x < start + blocks ==> #[trigger] m.owner[x] == Owner::Loose,
        bytes.len() == 512,
        decode_node(bytes).next == decode_node(d[h.free as int]).next,
        ({
            let e = extent_at(d, h.free as int, j);
            &&& (adjacent(e, start, blocks) || e.length == 0)
            &&& decode_node(bytes).extents == decode_node(d[h.free as int]).extents.update(
                j,
                merged(e, start, blocks),
            )
        }),
    ensures
        layout_ok(d.update(h.free as int, bytes), h, free_after_put(m, j, start as int, blocks as int)),
        free_after_put(m, j, start as int, blocks as int).free.total() == m.free.total() + 512
            * blocks,
{
    let b = h.free as int;
    let m2 = free_after_put(m, j, start as int, blocks as int);
    let d2 = d.update(b, bytes);
    let c = m.free;
    let c2 = m2.free;
    let e = extent_at(d, b, j);
    let e2 = merged(e, start, blocks);
    assert(link_ok(d, m.owner, c, Owner::FreeLink, false, 0));
    assert(slot_ok(d, m.owner, c, false, 0, j));
    assert(d2[b] == bytes);
    assert forall|k: int| 0 <= k < 16 implies #[trigger] slot_ok(d2, m2.owner, c2, false, 0, k) by {
        assert(slot_ok(d, m.owner, c, false, 0, k));
        let ek = extent_at(d, b, k);
        if k == j {
            assert(extent_at(d2, b, k) == e2);
            if e.length > 0 {
                assert(e2.span() == e.span() + blocks);
                assert(e.span() == e.length / 512);
            } else {
                assert(e2.span() == blocks);
            }
            assert forall|x: int| e2.start <= x < e2.start + e2.span() implies #[trigger] m2.owner[x]
                == (Owner::Held { node: b, slot: k }) by {
                if !(start <= x < start + blocks) {
                    assert(m.owner[x] == (Owner::Held { node: b, slot: k }));
                }
            }
        } else {
            assert(extent_at(d2, b, k) == ek);
            if ek.length > 0 {
                assert forall|x: int| ek.start <= x < ek.start + ek.span() implies #[trigger] m2.owner[x]
                    == (Owner::Held { node: b, slot: k }) by {
                    assert(m.owner[x] == (Owner::Held { node: b, slot: k }));
                }
            }
        }
    }
    assert forall|k: int| 0 <= k < 16 implies (#[trigger] decode_node(bytes).extents[k]).length % 512
        == 0 by {
        assert(extent_at(d, c.blocks[0], k).length % 512 == 0);
    }
    assert(marks_moved(m.owner, m2.owner, d.len() as int, b));
    assert forall|x: int| 0 <= x < d2.len() implies #[trigger] mark_true(d2, m2, x) by {
        assert(mark_true(d, m, x));
        if start <= x < start + blocks {
            assert(extent_at(d2, b, j) == e2);
        } else if m.owner[x] is Held {
            let node = m.owner[x]->node;
            let slot = m.owner[x]->slot;
            if node == b {
                assert(slot_ok(d, m.owner, c, false, 0, slot));
                if slot == j {
                    assert(extent_at(d2, b, j) == e2);
                } else {
                    assert(extent_at(d2, b, slot) == extent_at(d, b, slot));
                }
            }
        }
    }
    lemma_layout_rewrite_free(d, h, m, 0, bytes, m2.owner, c2);
}

/// The free list after the first block of a loose run became its first
/// record, holding the rest of the run.
pub open spec fn free_after_push(m: Model, start: int, blocks: int) -> Model {
    Model {
        owner: mark(
            mark(m.owner, start + 1, start + blocks, Owner::Held { node: start, slot: 0 }),
            start,
            start + 1,
            Owner::FreeLink,
        ),
        free: Chain {
            blocks: seq![start] + m.free.blocks,
            base: Seq::new(
                m.free.base.len() + 16,
                |t: int|
                    if t == 0 {
                        0
                    } else if t <= 16 {
                        512 * (blocks - 1)
                    } else {
                        m.free.base[t - 16] + 512 * (blocks - 1)
                    },
            ),
            data: m.free.data,
        },
        chains: m.chains,
    }
}

/// The layout stays proper when the first block of a loose run becomes the
/// first record of the free list.
pub proof fn lemma_free_push(
    d: Seq<Seq<u8>>,
    h: Header,
    m: Model,
    start: u64,
    blocks: u64,
    bytes: Seq<u8>,
    hb: Seq<u8>,
)
    requires
        layout_ok(d, h, m),
        blocks >= 1,
        3 <= start,
        start + blocks <= d.len(),
        forall|x: int| start <= x < start + blocks ==> #[trigger] m.owner[x] == Owner::Loose,
        bytes.len() == 512,
        hb.len() == 512,
        decode_node(bytes).next == h.free,
        decode_node(bytes).extents[0] == (if blocks > 1 {
            Extent { start: (start + 1) as u64, length: (512 * (blocks - 1)) as u64 }
        } else {
            Extent { start: 0, length: 0 }
        }),
        forall|j: int| 1 <= j < 16 ==> (#[trigger] decode_node(bytes).extents[j]).length == 0,
        decode_header(hb) == (Header { free: start, ..h }),
    ensures
        layout_ok(
            d.update(start as int, bytes).update(2, hb),
            Header { free: start, ..h },
            free_after_push(m, start as int, blocks as int),
        ),
        free_after_push(m, start as int, blocks as int).free.total() == m.free.total() + 512 * (
        blocks - 1),
{
    let s = start as int;
    let m2 = free_after_push(m, s, blocks as int);
    let d2 = d.update(s, bytes).update(2, hb);
    let h2 = Header { free: start, ..h };
    let c = m.free;
    let c2 = m2.free;
    let o = m.owner;
    let o2 = m2.owner;
    assert(o[s] == Owner::Loose);
    assert forall|x: int| 0 <= x < d2.len() implies (#[trigger] d2[x]).len() == 512 by {
        assert(d[x].len() == 512);
    }
    assert forall|x: int| 0 <= x < 3 implies #[trigger] o2[x] == Owner::Reserved by {
        assert(o[x] == Owner::Reserved);
    }
    assert forall|i: int| 0 <= i < c.blocks.len() implies c.blocks[i] != s && c.blocks[i] != 2
        && d2[c.blocks[i]] == d[c.blocks[i]] by {
        assert(link_ok(d, o, c, Owner::FreeLink, false, i));
    }
    assert(c2.blocks.no_duplicates()) by {
        assert forall|i: int, k: int|
            0 <= i < c2.blocks.len() && 0 <= k < c2.blocks.len() && i != k implies c2.blocks[i]
            != c2.blocks[k] by {
            if i > 0 && k > 0 {
                assert(c.blocks[i - 1] != c.blocks[k - 1]);
            }
        }
    }
    assert forall|i: int| 0 <= i < c2.blocks.len() implies #[trigger] link_ok(
        d2,
        o2,
        c2,
        Owner::FreeLink,
        false,
        i,
    ) by {
        if i == 0 {
            assert(d2[s] == bytes);
            assert forall|j: int| 0 <= j < 16 implies #[trigger] slot_ok(d2, o2, c2, false, 0, j) by {
                let e = extent_at(d2, s, j);
                if j > 0 {
                    assert(decode_node(bytes).extents[j].length == 0);
                }
            }
        } else {
            let b = c.blocks[i - 1];
            assert(link_ok(d, o, c, Owner::FreeLink, false, i - 1));
            assert forall|j: int| 0 <= j < 16 implies #[trigger] slot_ok(d2, o2, c2, false, i, j) by {
                assert(slot_ok(d, o, c, false, i - 1, j));
                let e = extent_at(d, b, j);
                if e.length > 0 {
                    assert forall|x: int| e.start <= x < e.start + e.span() implies #[trigger] o2[x]
                        == (Owner::Held { node: b, slot: j }) by {
                        assert(o[x] == (Owner::Held { node: b, slot: j }));
                    }
                }
            }
        }
    }
    assert forall|i: int, j: int|
        0 <= i < c2.blocks.len() && 0 <= j < 16 implies (#[trigger] extent_at(
        d2,
        c2.blocks[i],
        j,
    )).length % 512 == 0 by {
        if i == 0 {
            if j > 0 {
                assert(decode_node(bytes).extents[j].length == 0);
            }
        } else {
            assert(extent_at(d, c.blocks[i - 1], j).length % 512 == 0);
        }
    }
    assert forall|k: int| #[trigger] m2.chains.contains_key(k) implies m2.chains[k].blocks[0] == k
        && chain_ok(d2, o2, m2.chains[k], Owner::Link { head: k }, true) by {
        let ck = m.chains[k];
        let tag = Owner::Link { head: k };
        assert forall|x: int| 0 <= x < d.len() && belongs(#[trigger] o[x], ck, tag) implies d2[x]
            == d[x] && o2[x] == o[x] by {
        }
        lemma_chain_frame(d, d2, o, o2, ck, tag, true);
    }
    assert forall|x: int| 0 <= x < d2.len() implies #[trigger] mark_true(d2, m2, x) by {
        assert(mark_true(d, m, x));
        if x == s {
            assert(c2.blocks[0] == s);
        } else if s < x < s + blocks {
            assert(d2[s] == bytes);
        } else if o[x] is FreeLink {
            let t = choose|t: int| 0 <= t < c.blocks.len() && c.blocks[t] == x;
            assert(c2.blocks[t + 1] == x);
        } else if o[x] is Held {
            let node = o[x]->node;
            assert(o[node] is FreeLink || o[node] is Link);
            assert(node != s);
            assert(d2[node] == d[node]);
        }
    }
}

impl<D: Disk> FileSystem<D> {
    /// Writes `header` into its block and keeps it as the current header.
    pub(crate) fn store_header(&mut self, header: Header) -> (r: Result<(), Error>)
        requires
            old(self).disk.inv(),
        ensures
            final(self).disk.inv(),
            final(self).disk.reliable() == old(self).disk.reliable(),
            final(self).model@ == old(self).model@,
            match r {
                Ok(()) => {
                    &&& 2 < old(self).disk@.len()
                    &&& final(self).disk@ == old(self).disk@.update(2, final(self).disk@[2])
                    &&& final(self).disk@[2].len() == 512
                    &&& decode_header(final(self).disk@[2]) == header
                    &&& final(self).header == header
                },
                Err(e) => e == Error::Io && final(self).disk@ == old(self).disk@ && final(self).header == old(self).header && !(old(self).disk.reliable() && 2 < old(self).disk@.len()),
            },
    {
        let buf = header.encode();
        if self.disk.write(HEADER_BLOCK, &buf).is_err() {
            return Err(Error::Io);
        }
        self.header = header;
        Ok(())
    }

    /// How the run `[start, start + blocks)` went into the free list of
    /// `before`: into the first extent of the first record that it touches,
    /// which grows by it; else into the first empty slot of that record; and
    /// where the record has no room, the first block of the run is the new
    /// first record of the list and holds the rest.
    pub open spec fn joined(&self, before: &Self, start: u64, blocks: u64) -> bool {
        let exts = before.record(before.header.free).extents;
        if no_place(exts, start, blocks) {
            &&& self.header.free == start
            &&& self.record(start).next == before.header.free
            &&& self.record(start).extents[0] == (if blocks > 1 {
                Extent { start: (start + 1) as u64, length: (512 * (blocks - 1)) as u64 }
            } else {
                Extent { start: 0, length: 0 }
            })
        } else {
            &&& self.header == before.header
            &&& exists|j: int| #[trigger]
                placed_at(exts, start, blocks, j) && self.record(before.header.free).extents
                    == exts.update(j, merged(exts[j], start, blocks))
        }
    }

    /// Returns the blocks of `[start, start + blocks)` to the free list.
    ///
    /// The run goes into the first record of the list: joined to an extent
    /// that it touches, or else into an empty slot. Where the record is
    /// full, the first block of the run becomes the new first record of the
    /// list and holds the rest.
    pub fn deallocate(&mut self, start: u64, blocks: u64) -> (r: Result<(), Error>)
        requires
            old(self).disk.inv(),
        ensures
            final(self).disk.inv(),
            blocks == 0 ==> r is Ok && final(self).same_as(old(self)),
            old(self).wf() && old(self).range_loose(start, blocks) ==> match r {
                Ok(()) => {
                    &&& final(self).wf()
                    &&& final(self).free_blocks() == old(self).free_blocks() + blocks
                    &&& final(self).nodes_kept(old(self))
                    &&& final(self).loose_kept(old(self), start as int, blocks as int)
                    &&& final(self).loose_moved(old(self), 0, 0, start as int, start + blocks)
                    &&& final(self).gives_less(old(self), 0)
                    &&& forall|x: int| start <= x < start + blocks ==> #[trigger] final(self).is_free(x)
                    &&& blocks > 0 ==> final(self).joined(old(self), start, blocks)
                },
                Err(e) => e == Error::Io && !old(self).disk.reliable() && final(self).wf(),
            },
    {
        if blocks == 0 {
            return Ok(());
        }
        let n = self.disk.blocks();
        if start < 3 || start >= n || blocks > n - start || n > u64::MAX / 512 {
            return Err(Error::Invalid);
        }
        let head = self.header.free;
        proof {
            if old(self).wf() {
                assert(link_ok(
                    self.disk@,
                    self.model@.owner,
                    self.model@.free,
                    Owner::FreeLink,
                    false,
                    0,
                ));
            }
        }
        let mut rec = match self.node(head) {
            Ok((_, rec)) => rec,
            Err(_) => {
                return Err(Error::Io);
            },
        };
        let ghost known = old(self).wf() && old(self).range_loose(start, blocks);
        match place(&rec, start, blocks) {
            Some(j) => {
                let e = rec.extents[j];
                let e2 = if e.length == 0 {
                    Extent { start, length: 512 * blocks }
                } else if e.start == start + blocks {
                    Extent { start, length: e.length + 512 * blocks }
                } else {
                    Extent { start: e.start, length: e.length + 512 * blocks }
                };
                rec.extents[j] = e2;
                if self.store(head, &rec).is_err() {
                    return Err(Error::Io);
                }
                proof {
                    if known {
                        let d = old(self).disk@;
                        let m = old(self).model@;
                        assert(link_ok(d, m.owner, m.free, Owner::FreeLink, false, 0));
                        assert(slot_ok(d, m.owner, m.free, false, 0, j as int));
                        assert(m.owner[start as int] == Owner::Loose) by {
                            assert(old(self).loose(start as int));
                        }
                        assert(e2 == merged(e, start, blocks)) by {
                            if e.length > 0 && e.start + e.length / 512 == start && start + blocks
                                == e.start {
                            }
                        }
                        assert forall|x: int| start <= x < start + blocks implies #[trigger] m.owner[x]
                            == Owner::Loose by {
                            assert(old(self).loose(x));
                        }
                        lemma_free_put(
                            d,
                            self.header,
                            m,
                            j as int,
                            start,
                            blocks,
                            self.disk@[head as int],
                        );
                    }
                }
                self.model = Ghost(
                    free_after_put(old(self).model@, j as int, start as int, blocks as int),
                );
                proof {
                    if known {
                        let d = old(self).disk@;
                        let m = old(self).model@;
                        assert forall|n: int| old(self).can_give(n + 0) implies #[trigger] self.can_give(
                            n,
                        ) by {
                            if !self.can_give(n) {
                                assert forall|j2: int| 0 <= j2 < 16 implies (#[trigger] decode_node(
                                    self.disk@[head as int],
                                ).extents[j2]).length / 512 + 0 >= extent_at(
                                    d,
                                    m.free.blocks[0],
                                    j2,
                                ).length / 512 by {}
                                crate::fit::lemma_fit_rewrite(
                                    d,
                                    m.owner,
                                    m.free,
                                    0,
                                    self.disk@[head as int],
                                    self.model@.free,
                                    n,
                                    0,
                                );
                            }
                        }
                    }
                }
                assert(known ==> self.nodes_kept(old(self)));
                assert(known ==> self.loose_kept(old(self), start as int, blocks as int));
                Ok(())
            },
            None => {
                let mut fresh = Node::new(MODE_FILE, "free".as_bytes(), 0, 0, 0, 0, 0);
                fresh.next = head;
                if blocks > 1 {
                    fresh.extents[0] = Extent { start: start + 1, length: 512 * (blocks - 1) };
                }
                if self.store(start, &fresh).is_err() {
                    return Err(Error::Io);
                }
                let ghost bytes = self.disk@[start as int];
                proof {
                    if known {
                        assert(old(self).loose(start as int));
                        crate::reshape::lemma_loose_write(
                            old(self).disk@,
                            self.header,
                            self.model@,
                            start as int,
                            bytes,
                        );
                    }
                }
                let h = self.header;
                let h2 = Header {
                    signature: h.signature,
                    version: h.version,
                    size: h.size,
                    root: h.root,
                    free: start,
                };
                if self.store_header(h2).is_err() {
                    return Err(Error::Io);
                }
                proof {
                    if known {
                        let d = old(self).disk@;
                        let m = old(self).model@;
                        assert forall|x: int| start <= x < start + blocks implies #[trigger] m.owner[x]
                            == Owner::Loose by {
                            assert(old(self).loose(x));
                        }
                        lemma_free_push(d, h, m, start, blocks, bytes, self.disk@[2]);
                    }
                }
                self.model = Ghost(free_after_push(old(self).model@, start as int, blocks as int));
                proof {
                    if known {
                        let d = old(self).disk@;
                        let m = old(self).model@;
                        assert(m.owner[2] == Owner::Reserved);
                        assert(old(self).loose(start as int));
                        assert forall|i2: int| 0 <= i2 < m.free.blocks.len() implies self.model@.free.blocks[i2
                            + 1] == #[trigger] m.free.blocks[i2] && decode_node(
                            self.disk@[m.free.blocks[i2]],
                        ).extents == decode_node(d[m.free.blocks[i2]]).extents by {
                            assert(link_ok(d, m.owner, m.free, Owner::FreeLink, false, i2));
                        }
                        assert forall|n: int| old(self).can_give(n + 0) implies #[trigger] self.can_give(
                            n,
                        ) by {
                            if !self.can_give(n) {
                                crate::fit::lemma_fit_push(
                                    d,
                                    m.free,
                                    self.disk@,
                                    self.model@.free,
                                    n,
                                );
                            }
                        }
                    }
                }
                assert(known ==> self.nodes_kept(old(self)));
                assert(known ==> self.loose_kept(old(self), start as int, blocks as int));
                Ok(())
            },
        }
    }
}

} // verus!

verus! {

/// Whether the extent in slot `j` of record `i` of the free list can give
/// `blocks` blocks.
pub open spec fn fits_at(d: Seq<Seq<u8>>, c: Chain, i: int, j: int, blocks: int) -> bool {
    extent_at(d, c.blocks[i], j).length / 512 >= blocks
}

/// Whether slot `(i2, j2)` comes before slot `(i, j)` in the walk of a chain.
pub open spec fn before(i2: int, j2: int, i: int, j: int) -> bool {
    i2 < i || (i2 == i && j2 < j)
}

/// Slot `(i, j)` is the first of the free list that can give `blocks` blocks.
pub open spec fn first_fit(d: Seq<Seq<u8>>, c: Chain, i: int, j: int, blocks: int) -> bool {
    &&& 0 <= i < c.blocks.len()
    &&& 0 <= j < 16
    &&& fits_at(d, c, i, j, blocks)
    &&& forall|i2: int, j2: int|
        0 <= i2 < c.blocks.len() && 0 <= j2 < 16 && before(i2, j2, i, j) ==> !#[trigger] fits_at(
            d,
            c,
            i2,
            j2,
            blocks,
        )
}

/// No slot of the free list can give `blocks` blocks.
pub open spec fn no_fit(d: Seq<Seq<u8>>, c: Chain, blocks: int) -> bool {
    forall|i2: int, j2: int|
        0 <= i2 < c.blocks.len() && 0 <= j2 < 16 ==> !#[trigger] fits_at(d, c, i2, j2, blocks)
}

/// The first slot of a record whose extent can give `blocks` blocks.
pub fn fit(node: &Node, blocks: u64) -> (r: Option<usize>)
    ensures
        match r {
            Some(j) => {
                &&& j < 16
                &&& node@.extents[j as int].length / 512 >= blocks
                &&& forall|k: int| 0 <= k < j ==> (#[trigger] node@.extents[k]).length / 512 < blocks
            },
            None => forall|k: int| 0 <= k < 16 ==> (#[trigger] node@.extents[k]).length / 512 < blocks,
        },
{
    let mut j: usize = 0;
    while j < 16
        invariant
            j <= 16,
            forall|k: int| 0 <= k < j ==> (#[trigger] node@.extents[k]).length / 512 < blocks,
        decreases 16 - j,
    {
        if node.extents[j].length / 512 >= blocks {
            return Some(j);
        }
        j += 1;
    }
    None
}

/// Whether every extent of the record is empty.
pub fn holds_nothing(node: &Node) -> (r: bool)
    ensures
        r == (forall|k: int| 0 <= k < 16 ==> (#[trigger] node@.extents[k]).length == 0),
{
    let mut j: usize = 0;
    while j < 16
        invariant
            j <= 16,
            forall|k: int| 0 <= k < j ==> (#[trigger] node@.extents[k]).length == 0,
        decreases 16 - j,
    {
        if node.extents[j].length != 0 {
            assert(node@.extents[j as int].length != 0);
            return false;
        }
        j += 1;
    }
    true
}

/// The free list after `blocks` blocks left the end of the extent in slot
/// `j` of record `i`, from block `start` on.
pub open spec fn free_after_take(m: Model, i: int, j: int, start: int, blocks: int) -> Model {
    Model {
        owner: mark(m.owner, start, start + blocks, Owner::Loose),
        free: Chain { base: shift(m.free.base, 16 * i + j, -512 * blocks), ..m.free },
        chains: m.chains,
    }
}

/// The layout stays proper when blocks leave the end of a free extent.
pub proof fn lemma_free_take(
    d: Seq<Seq<u8>>,
    h: Header,
    m: Model,
    i: int,
    j: int,
    blocks: u64,
    bytes: Seq<u8>,
)
    requires
        layout_ok(d, h, m),
        0 <= i < m.free.blocks.len(),
        0 <= j < 16,
        blocks >= 1,
        fits_at(d, m.free, i, j, blocks as int),
        bytes.len() == 512,
        decode_node(bytes).next == decode_node(d[m.free.blocks[i]]).next,
        ({
            let e = extent_at(d, m.free.blocks[i], j);
            decode_node(bytes).extents == decode_node(d[m.free.blocks[i]]).extents.update(
                j,
                if e.length / 512 > blocks {
                    Extent { start: e.start, length: (e.length - 512 * blocks) as u64 }
                } else {
                    Extent { start: 0, length: 0 }
                },
            )
        }),
    ensures
        ({
            let e = extent_at(d, m.free.blocks[i], j);
            let start = e.start + e.length / 512 - blocks;
            let m2 = free_after_take(m, i, j, start, blocks as int);
            &&& layout_ok(d.update(m.free.blocks[i], bytes), h, m2)
            &&& m2.free.total() == m.free.total() - 512 * blocks
            &&& 3 <= start
            &&& start + blocks <= d.len()
            &&& forall|x: int|
                start <= x < start + blocks ==> #[trigger] m.owner[x] == (Owner::Held {
                    node: m.free.blocks[i],
                    slot: j,
                })
        }),
{
    let c = m.free;
    let b = c.blocks[i];
    let e = extent_at(d, b, j);
    let start = e.start + e.length / 512 - blocks;
    let m2 = free_after_take(m, i, j, start, blocks as int);
    let c2 = m2.free;
    let d2 = d.update(b, bytes);
    assert(link_ok(d, m.owner, c, Owner::FreeLink, false, i));
    assert(slot_ok(d, m.owner, c, false, i, j));
    assert(e.length % 512 == 0);
    assert(e.span() == e.length / 512);
    assert(d2[b] == bytes);
    assert forall|k: int| 0 <= k < 16 implies #[trigger] slot_ok(d2, m2.owner, c2, false, i, k) by {
        assert(slot_ok(d, m.owner, c, false, i, k));
        let ek = extent_at(d, b, k);
        if k == j {
            let e2 = extent_at(d2, b, k);
            if e2.length > 0 {
                assert(e2.span() == e.span() - blocks);
                assert forall|x: int| e2.start <= x < e2.start + e2.span() implies #[trigger] m2.owner[x]
                    == (Owner::Held { node: b, slot: k }) by {
                    assert(m.owner[x] == (Owner::Held { node: b, slot: k }));
                }
            }
        } else {
            assert(extent_at(d2, b, k) == ek);
            if ek.length > 0 {
                assert forall|x: int| ek.start <= x < ek.start + ek.span() implies #[trigger] m2.owner[x]
                    == (Owner::Held { node: b, slot: k }) by {
                    assert(m.owner[x] == (Owner::Held { node: b, slot: k }));
                    if start <= x < start + blocks {
                        assert(m.owner[x] == (Owner::Held { node: b, slot: j }));
                    }
                }
            }
        }
    }
    assert forall|k: int| 0 <= k < 16 implies (#[trigger] decode_node(bytes).extents[k]).length % 512
        == 0 by {
        assert(extent_at(d, c.blocks[i], k).length % 512 == 0);
    }
    assert(marks_moved(m.owner, m2.owner, d.len() as int, b)) by {
        assert forall|x: int| 0 <= x < d.len() && #[trigger] m2.owner[x] != m.owner[x] implies (
        m.owner[x] matches Owner::Held { node, slot } && node == b) by {
            assert(m.owner[x] == (Owner::Held { node: b, slot: j }));
        }
    }
    assert forall|x: int| 0 <= x < d2.len() implies #[trigger] mark_true(d2, m2, x) by {
        assert(mark_true(d, m, x));
        if start <= x < start + blocks {
        } else if m.owner[x] is Held {
            let node = m.owner[x]->node;
            let slot = m.owner[x]->slot;
            assert(!(start <= node < start + blocks));
            if node == b {
                assert(slot_ok(d, m.owner, c, false, i, slot));
                if slot == j {
                    assert(m.owner[x] == (Owner::Held { node: b, slot: j }));
                } else {
                    assert(extent_at(d2, b, slot) == extent_at(d, b, slot));
                }
            }
        }
    }
    lemma_layout_rewrite_free(d, h, m, i, bytes, m2.owner, c2);
}

} // verus!

verus! {

/// The free list after record `i` left it, its one extent, of `blocks`
/// blocks from `start` on, with it.
pub open spec fn free_after_unlink(m: Model, i: int, start: int, blocks: int) -> Model {
    let b = m.free.blocks[i];
    Model {
        owner: mark(mark(m.owner, start, start + blocks, Owner::Loose), b, b + 1, Owner::Loose),
        free: Chain {
            blocks: m.free.blocks.remove(i),
            base: Seq::new(
                (m.free.base.len() - 16) as nat,
                |t: int|
                    if t <= 16 * i {
                        m.free.base[t]
                    } else {
                        m.free.base[t + 16] - 512 * blocks
                    },
            ),
            data: m.free.data,
        },
        chains: m.chains,
    }
}

/// The layout stays proper when a record of the free list whose one extent
/// is given away leaves the list: by a header that names its successor, or
/// by a predecessor that does.
pub proof fn lemma_free_unlink(
    d: Seq<Seq<u8>>,
    h: Header,
    m: Model,
    i: int,
    j: int,
    d2: Seq<Seq<u8>>,
    h2: Header,
)
    requires
        layout_ok(d, h, m),
        0 <= i < m.free.blocks.len(),
        m.free.blocks.len() >= 2,
        0 <= j < 16,
        extent_at(d, m.free.blocks[i], j).length > 0,
        forall|k: int|
            0 <= k < 16 && k != j ==> (#[trigger] extent_at(d, m.free.blocks[i], k)).length == 0,
        d2.len() == d.len(),
        i == 0 ==> {
            &&& h2 == (Header { free: m.free.blocks[1] as u64, ..h })
            &&& d2 == d.update(2, d2[2])
            &&& d2[2].len() == 512
            &&& decode_header(d2[2]) == h2
        },
        i > 0 ==> {
            let p = m.free.blocks[i - 1];
            &&& h2 == h
            &&& d2 == d.update(p, d2[p])
            &&& d2[p].len() == 512
            &&& decode_node(d2[p]).extents == decode_node(d[p]).extents
            &&& decode_node(d2[p]).next == m.free.next_of(i)
        },
    ensures
        ({
            let e = extent_at(d, m.free.blocks[i], j);
            let m2 = free_after_unlink(m, i, e.start as int, (e.length / 512) as int);
            &&& layout_ok(d2, h2, m2)
            &&& m2.free.total() == m.free.total() - e.length
            &&& m2.free.blocks.len() == m.free.blocks.len() - 1
            &&& e.length % 512 == 0
            &&& 3 <= e.start
            &&& e.start + e.length / 512 <= d.len()
            &&& 3 <= m.free.blocks[i] < d.len()
            &&& m.owner[m.free.blocks[i]] == Owner::FreeLink
            &&& forall|x: int|
                e.start <= x < e.start + e.length / 512 ==> #[trigger] m.owner[x] == (Owner::Held {
                    node: m.free.blocks[i],
                    slot: j,
                })
        }),
{
    let c = m.free;
    let o = m.owner;
    let b = c.blocks[i];
    let e = extent_at(d, b, j);
    let m2 = free_after_unlink(m, i, e.start as int, (e.length / 512) as int);
    let c2 = m2.free;
    let o2 = m2.owner;
    let w = if i == 0 {
        2
    } else {
        c.blocks[i - 1]
    };
    assert(link_ok(d, o, c, Owner::FreeLink, false, i));
    assert(slot_ok(d, o, c, false, i, j));
    assert(e.length % 512 == 0);
    assert(e.span() == e.length / 512);
    assert(3 <= w < d.len() || w == 2) by {
        if i > 0 {
            assert(link_ok(d, o, c, Owner::FreeLink, false, i - 1));
        }
    }
    assert forall|x: int| 0 <= x < d2.len() implies (#[trigger] d2[x]).len() == 512 by {
        assert(d[x].len() == 512);
    }
    assert forall|x: int| 0 <= x < 3 implies #[trigger] o2[x] == Owner::Reserved by {
        assert(o[x] == Owner::Reserved);
    }
    // the sums of the record that leaves
    lemma_single_extent_sums(d, o, c, i, j, 16);
    assert(c.base[16 * i + 16] == c.base[16 * i] + e.length);
    assert(c2.blocks.no_duplicates()) by {
        assert forall|a: int, k: int|
            0 <= a < c2.blocks.len() && 0 <= k < c2.blocks.len() && a != k implies c2.blocks[a]
            != c2.blocks[k] by {
            let a1 = if a < i {
                a
            } else {
                a + 1
            };
            let k1 = if k < i {
                k
            } else {
                k + 1
            };
            assert(c.blocks[a1] != c.blocks[k1]);
        }
    }
    assert forall|a: int| 0 <= a < c2.blocks.len() implies #[trigger] link_ok(
        d2,
        o2,
        c2,
        Owner::FreeLink,
        false,
        a,
    ) by {
        let a1 = if a < i {
            a
        } else {
            a + 1
        };
        let ba = c.blocks[a1];
        assert(c2.blocks[a] == ba);
        assert(link_ok(d, o, c, Owner::FreeLink, false, a1));
        assert(ba != b);
        assert(c2.next_of(a) == (if a1 == i - 1 {
            c.next_of(i)
        } else {
            c.next_of(a1)
        }));
        assert(decode_node(d2[ba]).extents == decode_node(d[ba]).extents);
        assert forall|k: int| 0 <= k < 16 implies #[trigger] slot_ok(d2, o2, c2, false, a, k) by {
            assert(slot_ok(d, o, c, false, a1, k));
            let ek = extent_at(d, ba, k);
            if ek.length > 0 {
                assert forall|x: int| ek.start <= x < ek.start + ek.span() implies #[trigger] o2[x]
                    == (Owner::Held { node: ba, slot: k }) by {
                    assert(o[x] == (Owner::Held { node: ba, slot: k }));
                    if e.start <= x < e.start + e.length / 512 {
                        assert(o[x] == (Owner::Held { node: b, slot: j }));
                    }
                }
            }
        }
    }
    assert forall|a: int, k: int|
        0 <= a < c2.blocks.len() && 0 <= k < 16 implies (#[trigger] extent_at(
        d2,
        c2.blocks[a],
        k,
    )).length % 512 == 0 by {
        let a1 = if a < i {
            a
        } else {
            a + 1
        };
        assert(link_ok(d, o, c, Owner::FreeLink, false, a1));
        assert(decode_node(d2[c.blocks[a1]]).extents == decode_node(d[c.blocks[a1]]).extents);
        assert(extent_at(d, c.blocks[a1], k).length % 512 == 0);
    }
    assert forall|k: int| #[trigger] m2.chains.contains_key(k) implies m2.chains[k].blocks[0] == k
        && chain_ok(d2, o2, m2.chains[k], Owner::Link { head: k }, true) by {
        let ck = m.chains[k];
        let tag = Owner::Link { head: k };
        assert forall|x: int| 0 <= x < d.len() && belongs(#[trigger] o[x], ck, tag) implies d2[x]
            == d[x] && o2[x] == o[x] by {
            if i > 0 {
                assert(link_ok(d, o, c, Owner::FreeLink, false, i - 1));
            }
            if o[x] is Held && c.blocks.contains(b) {
                let node = o[x]->node;
                let t = choose|t: int| 0 <= t < ck.blocks.len() && ck.blocks[t] == node;
                assert(link_ok(d, o, ck, tag, true, t));
            }
        }
        lemma_chain_frame(d, d2, o, o2, ck, tag, true);
    }
    assert forall|x: int| 0 <= x < d2.len() implies #[trigger] mark_true(d2, m2, x) by {
        assert(mark_true(d, m, x));
        if x == b || (e.start <= x < e.start + e.length / 512) {
        } else if o[x] is FreeLink {
            let t = choose|t: int| 0 <= t < c.blocks.len() && c.blocks[t] == x;
            if t < i {
                assert(c2.blocks[t] == x);
            } else {
                assert(c2.blocks[t - 1] == x);
            }
        } else if o[x] is Held {
            let node = o[x]->node;
            let slot = o[x]->slot;
            if node == b {
                if slot != j {
                    assert(extent_at(d, c.blocks[i], slot).length == 0);
                } else {
                    assert(false);
                }
            } else {
                assert(o[node] is FreeLink || o[node] is Link);
                assert(!(e.start <= node < e.start + e.length / 512));
                if o[node] is FreeLink {
                    assert(mark_true(d, m, node));
                    let t = choose|t: int| 0 <= t < c.blocks.len() && c.blocks[t] == node;
                    assert(link_ok(d, o, c, Owner::FreeLink, false, t));
                    assert(decode_node(d2[node]).extents == decode_node(d[node]).extents);
                } else {
                    assert(o[2] == Owner::Reserved);
                    if i > 0 {
                        assert(link_ok(d, o, c, Owner::FreeLink, false, i - 1));
                    }
                    assert(node != w);
                }
            }
        }
    }
}

/// In a record with one extent, the sums step once, at that extent.
pub proof fn lemma_single_extent_sums(
    d: Seq<Seq<u8>>,
    o: Map<int, Owner>,
    c: Chain,
    i: int,
    j: int,
    k: int,
)
    requires
        0 <= i < c.blocks.len(),
        0 <= j < 16,
        0 <= k <= 16,
        link_ok(d, o, c, Owner::FreeLink, false, i),
        forall|t: int| 0 <= t < 16 && t != j ==> (#[trigger] extent_at(d, c.blocks[i], t)).length == 0,
    ensures
        c.base[16 * i + k] == c.base[16 * i] + (if k > j {
            extent_at(d, c.blocks[i], j).length as int
        } else {
            0
        }),
    decreases k,
{
    if k > 0 {
        lemma_single_extent_sums(d, o, c, i, j, k - 1);
        assert(slot_ok(d, o, c, false, i, k - 1));
        if k - 1 != j {
            assert(extent_at(d, c.blocks[i], k - 1).length == 0);
        }
    }
}

} // verus!

verus! {

impl<D: Disk> FileSystem<D> {
    /// Whether a free extent can give `blocks` blocks at once.
    pub open spec fn can_allocate(&self, blocks: u64) -> bool {
        !no_fit(self.disk@, self.model@.free, blocks as int)
    }

    /// Whether a free extent can give `n` blocks at once.
    pub open spec fn can_give(&self, n: int) -> bool {
        !no_fit(self.disk@, self.model@.free, n)
    }

    /// Whatever run one free extent of `before` could give, one of `self`
    /// can give it less `less` blocks.
    pub open spec fn gives_less(&self, before: &Self, less: int) -> bool {
        forall|n: int| before.can_give(n + less) ==> #[trigger] self.can_give(n)
    }

    /// Giving less twice is giving less by both.
    pub proof fn lemma_gives_less_twice(&self, mid: &Self, before: &Self, first: int, then: int)
        requires
            mid.gives_less(before, first),
            self.gives_less(mid, then),
        ensures
            self.gives_less(before, first + then),
    {
        assert forall|n: int| before.can_give(n + (first + then)) implies #[trigger] self.can_give(
            n,
        ) by {
            assert(mid.can_give(n + then));
        }
    }

    /// Where the free list and its records are the same, it gives the same.
    pub proof fn lemma_gives_same(&self, before: &Self)
        requires
            before.wf(),
            self.model@.free == before.model@.free,
            self.disk@.len() == before.disk@.len(),
            forall|x: int|
                0 <= x < before.disk@.len() && #[trigger] before.model@.owner[x] is FreeLink
                    ==> self.disk@[x] == before.disk@[x],
        ensures
            self.gives_less(before, 0),
            before.gives_less(self, 0),
    {
        let c = before.model@.free;
        let d = before.disk@;
        assert forall|i2: int, j2: int, n: int| 0 <= i2 < c.blocks.len() implies #[trigger] fits_at(
            d,
            c,
            i2,
            j2,
            n,
        ) == fits_at(self.disk@, c, i2, j2, n) by {
            assert(link_ok(d, before.model@.owner, c, Owner::FreeLink, false, i2));
        }
        assert forall|n: int| before.can_give(n + 0) implies #[trigger] self.can_give(n) by {
            let (i2, j2) = choose|i2: int, j2: int|
                0 <= i2 < c.blocks.len() && 0 <= j2 < 16 && #[trigger] fits_at(d, c, i2, j2, n);
            assert(fits_at(self.disk@, c, i2, j2, n));
        }
        assert forall|n: int| self.can_give(n + 0) implies #[trigger] before.can_give(n) by {
            let (i2, j2) = choose|i2: int, j2: int|
                0 <= i2 < c.blocks.len() && 0 <= j2 < 16 && #[trigger] fits_at(
                    self.disk@,
                    c,
                    i2,
                    j2,
                    n,
                );
            assert(fits_at(d, c, i2, j2, n));
        }
    }

    /// The block from which `allocate(blocks)` takes its run: the end of the
    /// first free extent that is large enough, less `blocks`.
    pub open spec fn allocation(&self, blocks: u64) -> int {
        let c = self.model@.free;
        let (i, j) = choose|i: int, j: int| first_fit(self.disk@, c, i, j, blocks as int);
        let e = extent_at(self.disk@, c.blocks[i], j);
        e.start + e.length / 512 - blocks
    }

    /// Takes `blocks` blocks in a row off the free list and returns the first.
    ///
    /// The list is walked in order and the first extent that is large enough
    /// gives its last `blocks` blocks. An extent that is used up leaves its
    /// slot; a record that this empties leaves the list, unless it is the
    /// only one, and its own block is returned to the list.
    pub fn allocate(&mut self, blocks: u64) -> (r: Result<u64, Error>)
        requires
            old(self).disk.inv(),
        ensures
            final(self).disk.inv(),
            blocks == 0 ==> r == Err::<u64, Error>(Error::Invalid) && final(self).same_as(old(self)),
            old(self).wf() && blocks > 0 ==> match r {
                Ok(start) => {
                    &&& final(self).wf()
                    &&& old(self).can_allocate(blocks)
                    &&& start == old(self).allocation(blocks)
                    &&& final(self).range_loose(start, blocks)
                    &&& forall|x: int|
                        start <= x < start + blocks ==> (#[trigger] old(self).model@.owner[x]) is Held
                    &&& final(self).free_blocks() == old(self).free_blocks() - blocks
                    &&& final(self).nodes_kept(old(self))
                    &&& final(self).loose_kept(old(self), 0, 0)
                    &&& final(self).loose_moved(old(self), start as int, start + blocks, 0, 0)
                    &&& final(self).gives_less(old(self), blocks as int)
                },
                Err(e) => {
                    &&& e == Error::NoSpace || e == Error::Io
                    &&& e == Error::NoSpace ==> final(self).same_as(old(self)) && !old(
                        self,
                    ).can_allocate(blocks)
                    &&& e == Error::Io ==> !old(self).disk.reliable() && final(self).wf()
                },
            },
    {
        if blocks == 0 {
            return Err(Error::Invalid);
        }
        let limit = self.disk.blocks();
        let ghost known = old(self).wf();
        let ghost c = self.model@.free;
        let mut b = self.header.free;
        let mut prev: u64 = 0;
        let mut steps: u64 = 0;
        proof {
            if known {
                assert(link_ok(self.disk@, self.model@.owner, c, Owner::FreeLink, false, 0));
            }
        }
        while b != 0
            invariant
                self.disk.inv(),
                self.same_as(old(self)),
                limit == self.disk@.len(),
                steps <= limit,
                blocks > 0,
                old(self).disk.inv(),
                known == old(self).wf(),
                c == self.model@.free,
                known ==> steps <= c.blocks.len(),
                known && b != 0 ==> steps < c.blocks.len() && b == c.blocks[steps as int],
                known && b == 0 ==> steps == c.blocks.len(),
                known && steps > 0 ==> prev == c.blocks[steps - 1],
                steps == 0 ==> prev == 0,
                known ==> forall|i2: int, j2: int|
                    0 <= i2 < steps && 0 <= j2 < 16 ==> !#[trigger] fits_at(
                        self.disk@,
                        c,
                        i2,
                        j2,
                        blocks as int,
                    ),
            decreases limit - steps,
        {
            proof {
                if known {
                    crate::rewrite::lemma_chain_short(
                        self.disk@,
                        self.model@.owner,
                        c,
                        Owner::FreeLink,
                        false,
                    );
                    assert(link_ok(
                        self.disk@,
                        self.model@.owner,
                        c,
                        Owner::FreeLink,
                        false,
                        steps as int,
                    ));
                }
            }
            if steps >= limit {
                return Err(Error::Io);
            }
            let rec = match self.node(b) {
                Ok((_, rec)) => rec,
                Err(_) => {
                    return Err(Error::Io);
                },
            };
            proof {
                if known {
                    assert(link_ok(
                        self.disk@,
                        self.model@.owner,
                        c,
                        Owner::FreeLink,
                        false,
                        steps as int,
                    ));
                    if steps + 1 < c.blocks.len() {
                        assert(link_ok(
                            self.disk@,
                            self.model@.owner,
                            c,
                            Owner::FreeLink,
                            false,
                            steps + 1,
                        ));
                    }
                }
            }
            match fit(&rec, blocks) {
                Some(j) => {
                    proof {
                        if known {
                            assert(first_fit(self.disk@, c, steps as int, j as int, blocks as int))
                                by {
                                assert forall|i2: int, j2: int|
                                    0 <= i2 < c.blocks.len() && 0 <= j2 < 16 && before(
                                        i2,
                                        j2,
                                        steps as int,
                                        j as int,
                                    ) implies !#[trigger] fits_at(
                                    self.disk@,
                                    c,
                                    i2,
                                    j2,
                                    blocks as int,
                                ) by {
                                    if i2 == steps {
                                        assert(rec@.extents[j2].length / 512 < blocks);
                                    }
                                }
                            }
                            lemma_first_fit_unique(self.disk@, c, steps as int, j as int, blocks as int);
                        }
                    }
                    let ghost pre = *self;
                    let r = self.take(b, prev, rec, j, blocks, Ghost(steps as int));
                    proof {
                        if known && r is Ok {
                            self.lemma_nodes_kept_twice(&pre, old(self));
                            assert forall|x: int|
                                0 <= x < self.disk@.len() && #[trigger] old(self).loose(
                                    x,
                                ) implies self.loose(x) && self.disk@[x] == old(self).disk@[x] by {
                                assert(pre.loose(x));
                            }
                        }
                    }
                    return r;
                },
                None => {},
            }
            prev = b;
            b = rec.next;
            steps += 1;
        }
        assert(known ==> no_fit(self.disk@, c, blocks as int));
        Err(Error::NoSpace)
    }

    /// Takes `blocks` blocks off the end of the extent in slot `j` of the
    /// free list's record at `b`, which is `rec` and follows `prev`.
    fn take(
        &mut self,
        b: u64,
        prev: u64,
        rec: Node,
        j: usize,
        blocks: u64,
        Ghost(i): Ghost<int>,
    ) -> (r: Result<u64, Error>)
        requires
            old(self).disk.inv(),
            rec.wf(),
            j < 16,
            blocks > 0,
            rec@.extents[j as int].length / 512 >= blocks,
            old(self).wf() ==> {
                let c = old(self).model@.free;
                &&& 0 <= i < c.blocks.len()
                &&& b == c.blocks[i]
                &&& i > 0 ==> prev == c.blocks[i - 1]
                &&& i == 0 ==> prev == 0
                &&& rec@ == old(self).record(b)
            },
        ensures
            final(self).disk.inv(),
            old(self).wf() ==> match r {
                Ok(start) => {
                    let e = rec@.extents[j as int];
                    &&& final(self).wf()
                    &&& start == e.start + e.length / 512 - blocks
                    &&& final(self).range_loose(start, blocks)
                    &&& forall|x: int|
                        start <= x < start + blocks ==> (#[trigger] old(self).model@.owner[x]) is Held
                    &&& final(self).free_blocks() == old(self).free_blocks() - blocks
                    &&& final(self).nodes_kept(old(self))
                    &&& final(self).loose_kept(old(self), 0, 0)
                    &&& final(self).loose_moved(old(self), start as int, start + blocks, 0, 0)
                    &&& final(self).gives_less(old(self), blocks as int)
                },
                Err(e) => e == Error::Io && !old(self).disk.reliable() && final(self).wf(),
            },
    {
        let ghost known = old(self).wf();
        let ghost d = self.disk@;
        proof {
            if known {
                let c = self.model@.free;
                let o = self.model@.owner;
                assert(link_ok(d, o, c, Owner::FreeLink, false, i));
                assert(link_ok(d, o, c, Owner::FreeLink, false, 0));
                assert(slot_ok(d, o, c, false, i, j as int));
                if i > 0 {
                    assert(link_ok(d, o, c, Owner::FreeLink, false, i - 1));
                    assert(c.blocks[i] != c.blocks[0]);
                }
                if i + 1 < c.blocks.len() {
                    assert(link_ok(d, o, c, Owner::FreeLink, false, i + 1));
                }
            }
        }
        let ghost m = self.model@;
        let e = rec.extents[j];
        let have = e.length / 512;
        let mut rec = rec;
        let start = match e.start.checked_add(have - blocks) {
            Some(s) => s,
            None => {
                proof {
                    if known {
                        assert(link_ok(d, m.owner, m.free, Owner::FreeLink, false, i));
                        assert(slot_ok(d, m.owner, m.free, false, i, j as int));
                    }
                }
                return Err(Error::Io);
            },
        };
        if have > blocks {
            rec.extents[j] = Extent { start: e.start, length: e.length - 512 * blocks };
        } else {
            rec.extents[j] = Extent { start: 0, length: 0 };
        }
        if holds_nothing(&rec) && (prev != 0 || rec.next != 0) && self.header.free != 0 {
            // the record is used up and not the only one: it leaves the list
            let next = rec.next;
            if b == self.header.free {
                let h = self.header;
                let h2 = Header {
                    signature: h.signature,
                    version: h.version,
                    size: h.size,
                    root: h.root,
                    free: next,
                };
                if next == 0 || self.store_header(h2).is_err() {
                    return Err(Error::Io);
                }
            } else {
                let mut before = match self.node(prev) {
                    Ok((_, n)) => n,
                    Err(_) => {
                        return Err(Error::Io);
                    },
                };
                before.next = next;
                if prev == 0 || self.store(prev, &before).is_err() {
                    return Err(Error::Io);
                }
            }
            proof {
                if known {
                    let c = m.free;
                    assert(link_ok(d, m.owner, c, Owner::FreeLink, false, i));
                    assert(link_ok(d, m.owner, c, Owner::FreeLink, false, 0));
                    assert(slot_ok(d, m.owner, c, false, i, j as int));
                    if i > 0 {
                        assert(link_ok(d, m.owner, c, Owner::FreeLink, false, i - 1));
                        assert(c.blocks[i] != c.blocks[0]);
                    }
                    if i + 1 < c.blocks.len() {
                        assert(link_ok(d, m.owner, c, Owner::FreeLink, false, i + 1));
                    }
                    assert forall|k: int| 0 <= k < 16 && k != j implies (#[trigger] extent_at(
                        d,
                        c.blocks[i],
                        k,
                    )).length == 0 by {
                        assert(rec@.extents[k].length == 0);
                    }
                    lemma_free_unlink(d, old(self).header, m, i, j as int, self.disk@, self.header);
                }
            }
            self.model = Ghost(free_after_unlink(m, i, e.start as int, have as int));
            let ghost mid = *self;
            assert(rec@.extents[j as int].length == 0);
            assert(have == blocks);
            proof {
                if known {
                    let c = m.free;
                    assert forall|i2: int| 0 <= i2 < c.blocks.len() && i2 != i implies decode_node(
                        self.disk@[#[trigger] c.blocks[i2]],
                    ).extents == decode_node(d[c.blocks[i2]]).extents by {
                        assert(link_ok(d, m.owner, c, Owner::FreeLink, false, i2));
                        assert(m.owner[2] == Owner::Reserved);
                    }
                    assert forall|j2: int| 0 <= j2 < 16 implies (#[trigger] extent_at(
                        d,
                        c.blocks[i],
                        j2,
                    )).length / 512 <= blocks by {
                        if j2 != j {
                            assert(old(self).record(b).extents[j2].length == 0) by {
                                assert(rec@.extents[j2].length == 0);
                            }
                        }
                    }
                    assert forall|n: int| old(self).can_give(n + blocks) implies #[trigger] mid.can_give(
                        n,
                    ) by {
                        if !mid.can_give(n) {
                            crate::fit::lemma_fit_unlink(
                                d,
                                c,
                                i,
                                mid.disk@,
                                mid.model@.free,
                                n,
                                blocks as int,
                            );
                        }
                    }
                }
            }
            assert(known ==> e == extent_at(d, m.free.blocks[i], j as int));
            assert(known ==> e.length == 512 * blocks);
            assert(known ==> self.free_blocks() == old(self).free_blocks() - blocks - 1);
            assert(known ==> self.nodes_kept(old(self)));
            assert(known ==> self.loose_kept(old(self), 0, 0));
            assert(known ==> self.range_loose(b, 1));
            match self.deallocate(b, 1) {
                Ok(()) => {},
                Err(_) => {
                    return Err(Error::Io);
                },
            }
            proof {
                if known {
                    assert forall|x: int| start <= x < start + blocks implies #[trigger] self.loose(
                        x,
                    ) by {
                        assert(mid.loose(x));
                    }
                    self.lemma_nodes_kept_twice(&mid, old(self));
                    assert(mid.gives_less(old(self), blocks as int));
                    self.lemma_gives_less_twice(&mid, old(self), blocks as int, 0);
                    assert forall|x: int|
                        0 <= x < self.disk@.len() && #[trigger] old(self).loose(x) implies self.loose(
                        x,
                    ) && self.disk@[x] == old(self).disk@[x] by {
                        assert(mid.loose(x));
                    }
                }
            }
            Ok(start)
        } else {
            if self.store(b, &rec).is_err() {
                return Err(Error::Io);
            }
            proof {
                if known {
                    assert(link_ok(d, m.owner, m.free, Owner::FreeLink, false, i));
                    assert(fits_at(d, m.free, i, j as int, blocks as int));
                    lemma_free_take(d, self.header, m, i, j as int, blocks, self.disk@[b as int]);
                }
            }
            self.model = Ghost(free_after_take(m, i, j as int, start as int, blocks as int));
            proof {
                if known {
                    assert forall|n: int| old(self).can_give(n + blocks) implies #[trigger] self.can_give(
                        n,
                    ) by {
                        if !self.can_give(n) {
                            assert forall|j2: int| 0 <= j2 < 16 implies (#[trigger] decode_node(
                                self.disk@[b as int],
                            ).extents[j2]).length / 512 + blocks >= extent_at(
                                d,
                                m.free.blocks[i],
                                j2,
                            ).length / 512 by {}
                            crate::fit::lemma_fit_rewrite(
                                d,
                                m.owner,
                                m.free,
                                i,
                                self.disk@[b as int],
                                self.model@.free,
                                n,
                                blocks as int,
                            );
                        }
                    }
                }
            }
            assert(known ==> self.free_blocks() == old(self).free_blocks() - blocks);
            assert(known ==> self.nodes_kept(old(self)));
            assert(known ==> self.loose_kept(old(self), 0, 0));
            Ok(start)
        }
    }
}

/// Only one slot is the first that fits.
pub proof fn lemma_first_fit_unique(d: Seq<Seq<u8>>, c: Chain, i: int, j: int, blocks: int)
    requires
        first_fit(d, c, i, j, blocks),
    ensures
        !no_fit(d, c, blocks),
        forall|i2: int, j2: int| first_fit(d, c, i2, j2, blocks) ==> i2 == i && j2 == j,
{
    assert(fits_at(d, c, i, j, blocks));
    assert forall|i2: int, j2: int| first_fit(d, c, i2, j2, blocks) implies i2 == i && j2 == j by {
        if before(i2, j2, i, j) {
            assert(!fits_at(d, c, i2, j2, blocks));
        }
        if before(i, j, i2, j2) {
            assert(!fits_at(d, c, i, j, blocks));
        }
    }
}

} // verus!
