use vstd::prelude::*;
use vstd::bytes::{lemma_auto_spec_u64_to_from_le_bytes, spec_u64_to_le_bytes};
use crate::codec::le64;
use crate::content::lemma_node_not_free;
use crate::disk::Disk;
use crate::error::Error;
use crate::frame::{belongs, lemma_chain_frame, mark};
use crate::fs::{pointers, written, FileSystem};
use crate::header::Header;
use crate::model::{chain_ok, extent_at, layout_ok, link_ok, slot_ok, Chain, Model, Owner};
use crate::node::{decode_node, Extent, Node};

verus! {

/// The chain of a node that holds nothing: one record, no bytes.
pub open spec fn empty_chain(b: int) -> Chain {
    Chain { blocks: seq![b], base: Seq::new(17, |t: int| 0int), data: Seq::empty() }
}

/// The layout after the loose block `b` became a node that holds nothing.
pub open spec fn model_after_adopt(m: Model, b: int) -> Model {
    Model {
        owner: mark(m.owner, b, b + 1, Owner::Link { head: b }),
        free: m.free,
        chains: m.chains.insert(b, empty_chain(b)),
    }
}

/// The layout after the node at `b` ceased to be one; its block is loose.
pub open spec fn model_after_disown(m: Model, b: int) -> Model {
    Model { owner: mark(m.owner, b, b + 1, Owner::Loose), free: m.free, chains: m.chains.remove(b) }
}

/// The layout stays proper when a record without extents is written into a
/// loose block and the block becomes a node.
pub proof fn lemma_adopt(d: Seq<Seq<u8>>, h: Header, m: Model, b: int, bytes: Seq<u8>)
    requires
        layout_ok(d, h, m),
        3 <= b < d.len(),
        m.owner[b] == Owner::Loose,
        bytes.len() == 512,
        decode_node(bytes).next == 0,
        forall|j: int| 0 <= j < 16 ==> (#[trigger] decode_node(bytes).extents[j]).length == 0,
    ensures
        layout_ok(d.update(b, bytes), h, model_after_adopt(m, b)),
        !m.chains.contains_key(b),
{
    let o = m.owner;
    let m2 = model_after_adopt(m, b);
    let o2 = m2.owner;
    let d2 = d.update(b, bytes);
    if m.chains.contains_key(b) {
        lemma_node_not_free(d, h, m, b);
    }
    assert forall|x: int| 0 <= x < d2.len() implies (#[trigger] d2[x]).len() == 512 by {
        assert(d[x].len() == 512);
    }
    assert forall|x: int| 0 <= x < 3 implies #[trigger] o2[x] == Owner::Reserved by {
        assert(o[x] == Owner::Reserved);
    }
    assert forall|x: int|
        0 <= x < d.len() && belongs(#[trigger] o[x], m.free, Owner::FreeLink) implies d2[x] == d[x]
        && o2[x] == o[x] by {}
    lemma_chain_frame(d, d2, o, o2, m.free, Owner::FreeLink, false);
    assert forall|i2: int, j: int|
        0 <= i2 < m.free.blocks.len() && 0 <= j < 16 implies (#[trigger] extent_at(
        d2,
        m.free.blocks[i2],
        j,
    )).length % 512 == 0 by {
        assert(link_ok(d, o, m.free, Owner::FreeLink, false, i2));
        assert(extent_at(d, m.free.blocks[i2], j).length % 512 == 0);
    }
    assert forall|x: int| 0 <= x < d2.len() implies #[trigger] crate::model::mark_true(d2, m2, x) by {
        assert(crate::model::mark_true(d, m, x));
        if x == b {
            assert(empty_chain(b).blocks[0] == b);
        } else if o[x] is Held {
            let node = o[x]->node;
            assert(o[node] is FreeLink || o[node] is Link);
            assert(node != b);
        }
    }
    assert forall|k: int| #[trigger] m2.chains.contains_key(k) implies m2.chains[k].blocks[0] == k
        && chain_ok(d2, o2, m2.chains[k], Owner::Link { head: k }, true) by {
        if k == b {
            let c = empty_chain(b);
            assert forall|j: int| 0 <= j < 16 implies #[trigger] slot_ok(d2, o2, c, true, 0, j) by {
                assert(decode_node(bytes).extents[j].length == 0);
            }
            assert(link_ok(d2, o2, c, Owner::Link { head: b }, true, 0));
        } else {
            let c = m.chains[k];
            let tag = Owner::Link { head: k };
            assert forall|x: int| 0 <= x < d.len() && belongs(#[trigger] o[x], c, tag) implies d2[x]
                == d[x] && o2[x] == o[x] by {}
            lemma_chain_frame(d, d2, o, o2, c, tag, true);
        }
    }
}

/// The layout stays proper when a node of one record, not the root, ceases
/// to be a node.
pub proof fn lemma_disown(d: Seq<Seq<u8>>, h: Header, m: Model, b: int)
    requires
        layout_ok(d, h, m),
        m.chains.contains_key(b),
        b != h.root,
        m.chains[b].blocks.len() == 1,
        m.chains[b].total() == 0,
    ensures
        layout_ok(d, h, model_after_disown(m, b)),
        3 <= b < d.len(),
{
    let o = m.owner;
    let m2 = model_after_disown(m, b);
    let o2 = m2.owner;
    lemma_node_not_free(d, h, m, b);
    assert forall|x: int| 0 <= x < 3 implies #[trigger] o2[x] == Owner::Reserved by {
        assert(o[x] == Owner::Reserved);
    }
    assert forall|x: int|
        0 <= x < d.len() && belongs(#[trigger] o[x], m.free, Owner::FreeLink) implies d[x] == d[x]
        && o2[x] == o[x] by {}
    lemma_chain_frame(d, d, o, o2, m.free, Owner::FreeLink, false);
    let cb = m.chains[b];
    assert(link_ok(d, o, cb, Owner::Link { head: b }, true, 0));
    assert forall|x: int| 0 <= x < d.len() implies #[trigger] crate::model::mark_true(d, m2, x) by {
        assert(crate::model::mark_true(d, m, x));
        if x == b {
        } else if o[x] is Link {
            if o[x]->head == b {
                let t = choose|t: int| 0 <= t < cb.blocks.len() && cb.blocks[t] == x;
                assert(false);
            }
        } else if o[x] is Held {
            let node = o[x]->node;
            let slot = o[x]->slot;
            if node == b {
                assert(slot_ok(d, o, cb, true, 0, slot));
                crate::rewrite::lemma_base_mono(d, o, cb, Owner::Link { head: b }, true, 0, slot);
                crate::rewrite::lemma_base_mono(d, o, cb, Owner::Link { head: b }, true, slot + 1, 16);
                assert(false);
            }
        }
    }
    assert forall|k: int| #[trigger] m2.chains.contains_key(k) implies m2.chains[k].blocks[0] == k
        && chain_ok(d, o2, m2.chains[k], Owner::Link { head: k }, true) by {
        let c = m.chains[k];
        let tag = Owner::Link { head: k };
        assert forall|x: int| 0 <= x < d.len() && belongs(#[trigger] o[x], c, tag) implies d[x]
            == d[x] && o2[x] == o[x] by {}
        lemma_chain_frame(d, d, o, o2, c, tag, true);
    }
}

/// Eight bytes written behind a directory's bytes add one block number to
/// its list.
pub proof fn lemma_pointers_push(data: Seq<u8>, after: Seq<u8>, b: u64)
    requires
        data.len() % 8 == 0,
        written(data, data.len() as int, spec_u64_to_le_bytes(b), after),
    ensures
        pointers(after) == pointers(data).push(b),
        after.len() == data.len() + 8,
{
    lemma_auto_spec_u64_to_from_le_bytes();
    let n = data.len() as int;
    assert(after.len() == n + 8);
    assert forall|i: int| 0 <= i < n / 8 + 1 implies pointers(after)[i] == pointers(data).push(b)[i] by {
        if i < n / 8 {
            assert(after.subrange(8 * i, 8 * i + 8) =~= data.subrange(8 * i, 8 * i + 8));
        } else {
            assert(after.subrange(8 * i, 8 * i + 8) =~= spec_u64_to_le_bytes(b));
        }
    }
    assert(pointers(after) =~= pointers(data).push(b));
}

/// Eight bytes written over entry `i` of a directory's bytes replace that
/// block number in its list.
pub proof fn lemma_pointers_update(data: Seq<u8>, after: Seq<u8>, i: int, b: u64)
    requires
        data.len() % 8 == 0,
        0 <= i < data.len() / 8,
        written(data, 8 * i, spec_u64_to_le_bytes(b), after),
    ensures
        pointers(after) == pointers(data).update(i, b),
        after.len() == data.len(),
{
    lemma_auto_spec_u64_to_from_le_bytes();
    let n = data.len() as int;
    assert forall|t: int| 0 <= t < n / 8 implies pointers(after)[t] == pointers(data).update(i, b)[t] by {
        if t != i {
            assert(after.subrange(8 * t, 8 * t + 8) =~= data.subrange(8 * t, 8 * t + 8));
        } else {
            assert(after.subrange(8 * t, 8 * t + 8) =~= spec_u64_to_le_bytes(b));
        }
    }
    assert(pointers(after) =~= pointers(data).update(i, b));
}

/// A directory's bytes cut to a whole number of entries list the first of
/// its block numbers.
pub proof fn lemma_pointers_take(data: Seq<u8>, n: int)
    requires
        0 <= n,
        8 * n <= data.len(),
    ensures
        pointers(data.take(8 * n)) == pointers(data).take(n),
{
    let after = data.take(8 * n);
    assert forall|t: int| 0 <= t < n implies pointers(after)[t] == pointers(data).take(n)[t] by {
        assert(after.subrange(8 * t, 8 * t + 8) =~= data.subrange(8 * t, 8 * t + 8));
    }
    assert(pointers(after) =~= pointers(data).take(n));
}

impl<D: Disk> FileSystem<D> {
    /// Makes the loose block `block` a node that holds nothing, with `node`
    /// as its record.
    pub(crate) fn adopt(&mut self, block: u64, node: &Node) -> (r: Result<(), Error>)
        requires
            old(self).disk.inv(),
            node.wf(),
        ensures
            final(self).disk.inv(),
            old(self).wf() && 3 <= block < old(self).disk@.len() && old(self).loose(block as int)
                && node@.next == 0 && (forall|j: int|
                0 <= j < 16 ==> (#[trigger] node@.extents[j]).length == 0) ==> match r {
                Ok(()) => {
                    &&& final(self).wf()
                    &&& !old(self).is_node(block)
                    &&& final(self).model@ == model_after_adopt(old(self).model@, block as int)
                    &&& final(self).disk@ == old(self).disk@.update(
                        block as int,
                        final(self).disk@[block as int],
                    )
                    &&& final(self).record(block) == node@
                    &&& final(self).header == old(self).header
                    &&& final(self).disk.reliable() == old(self).disk.reliable()
                },
                Err(e) => e == Error::Io && !old(self).disk.reliable() && final(self).wf(),
            },
    {
        let ghost d = self.disk@;
        let ghost m = self.model@;
        let ghost known = self.wf() && 3 <= block < self.disk@.len() && self.loose(block as int)
            && node@.next == 0 && (forall|j: int|
            0 <= j < 16 ==> (#[trigger] node@.extents[j]).length == 0);
        if self.store(block, node).is_err() {
            return Err(Error::Io);
        }
        proof {
            if known {
                assert forall|j: int| 0 <= j < 16 implies (#[trigger] decode_node(
                    self.disk@[block as int],
                ).extents[j]).length == 0 by {
                    assert(node@.extents[j].length == 0);
                }
                lemma_adopt(d, self.header, m, block as int, self.disk@[block as int]);
            }
        }
        self.model = Ghost(model_after_adopt(m, block as int));
        Ok(())
    }
}

} // verus!
