use vstd::prelude::*;
use crate::content::lemma_node_not_free;
use crate::disk::Disk;
use crate::error::Error;
use crate::frame::{belongs, lemma_span};
use crate::fs::{written, FileSystem};
use crate::header::Header;
use crate::model::{chain_ok, extent_at, layout_ok, link_ok, slot_ok, Chain, Model, Owner};
use crate::node::{decode_node, Node, NodeView, NAME_MAX};
use crate::reshape::lemma_layout_around;

verus! {

/// The layout stays proper when the first record of a node is rewritten
/// with the same extents and the same successor.
pub proof fn lemma_meta_write(d: Seq<Seq<u8>>, h: Header, m: Model, k: int, bytes: Seq<u8>)
    requires
        layout_ok(d, h, m),
        m.chains.contains_key(k),
        bytes.len() == 512,
        decode_node(bytes).next == decode_node(d[k]).next,
        decode_node(bytes).extents == decode_node(d[k]).extents,
    ensures
        layout_ok(d.update(k, bytes), h, m),
{
    let c = m.chains[k];
    let o = m.owner;
    let d2 = d.update(k, bytes);
    let tag = Owner::Link { head: k };
    lemma_node_not_free(d, h, m, k);
    assert forall|i: int| 0 <= i < c.blocks.len() implies #[trigger] link_ok(d2, o, c, tag, true, i) by {
        let b = c.blocks[i];
        assert(link_ok(d, o, c, tag, true, i));
        assert(decode_node(d2[b]).extents == decode_node(d[b]).extents);
        assert forall|j: int| 0 <= j < 16 implies #[trigger] slot_ok(d2, o, c, true, i, j) by {
            assert(slot_ok(d, o, c, true, i, j));
            let e = extent_at(d, b, j);
            assert forall|x: int, off: int|
                e.start <= x && 0 <= off < 512 && 512 * (x - e.start) + off
                    < e.length implies #[trigger] d2[x][off] == c.data[c.base[16 * i + j] + 512 * (
            x - e.start) + off] by {
                lemma_span(e, x, off);
                assert(o[x] == (Owner::Held { node: b, slot: j }));
                assert(d[x][off] == c.data[c.base[16 * i + j] + 512 * (x - e.start) + off]);
            }
        }
    }
    assert forall|x: int| 0 <= x < d2.len() implies (#[trigger] d2[x]).len() == 512 by {
        assert(d[x].len() == 512);
    }
    assert forall|x: int|
        0 <= x < d.len() && (d2[x] != d[x] || o[x] != o[x]) implies #[trigger] o[x] == Owner::Loose
        || belongs(o[x], c, tag) by {}
    assert(m.chains.insert(k, c) =~= m.chains);
    assert forall|x: int| 0 <= x < d2.len() implies #[trigger] crate::model::mark_true(d2, m, x) by {
        assert(crate::model::mark_true(d, m, x));
        if o[x] is Held {
            let node = o[x]->node;
            assert(decode_node(d2[node]).extents == decode_node(d[node]).extents);
        }
    }
    lemma_layout_around(d, d2, h, m, k, o, c);
}

impl<D: Disk> FileSystem<D> {
    /// Between `before` and `self` nothing changed but what the first
    /// record of the node at `block` says of the node itself.
    pub open spec fn only_meta_changed(&self, before: &Self, block: u64) -> bool {
        &&& self.model@ == before.model@
        &&& self.header == before.header
        &&& self.disk.reliable() == before.disk.reliable()
        &&& self.disk@ == before.disk@.update(block as int, self.disk@[block as int])
        &&& self.record(block).next == before.record(block).next
        &&& self.record(block).extents == before.record(block).extents
    }

    /// Writes what `node` says of the node at `block` into its first
    /// record: name, mode, owner, times and parent. Where the node's bytes
    /// lie stays as the record on disk has it.
    pub fn write_node_record(&mut self, block: u64, node: &Node) -> (r: Result<(), Error>)
        requires
            old(self).disk.inv(),
        ensures
            final(self).disk.inv(),
            node@.name.len() > NAME_MAX ==> r == Err::<(), Error>(Error::Invalid) && final(self).same_as(old(self)),
            old(self).wf() && old(self).is_node(block) && node@.name.len() <= NAME_MAX ==> match r {
                Ok(()) => {
                    &&& final(self).wf()
                    &&& final(self).only_meta_changed(old(self), block)
                    &&& final(self).record(block) == node@.with_layout(
                        old(self).record(block).next,
                        old(self).record(block).extents,
                    )
                },
                Err(e) => e == Error::Io && !old(self).disk.reliable() && final(self).wf(),
            },
    {
        if node.name.len() > NAME_MAX {
            return Err(Error::Invalid);
        }
        proof {
            if self.wf() && self.is_node(block) {
                lemma_node_not_free(self.disk@, self.header, self.model@, block as int);
            }
        }
        let cur = match self.node(block) {
            Ok((_, n)) => n,
            Err(_) => {
                return Err(Error::Io);
            },
        };
        let mut rec = node.clone();
        rec.next = cur.next;
        rec.extents = cur.extents;
        let ghost d = self.disk@;
        if self.store(block, &rec).is_err() {
            return Err(Error::Io);
        }
        proof {
            if old(self).wf() && old(self).is_node(block) {
                lemma_meta_write(d, self.header, self.model@, block as int, self.disk@[block as int]);
            }
        }
        Ok(())
    }

    /// Sets the modification time of the node at `block`.
    pub fn touch(&mut self, block: u64, mtime: u64, mtime_nsec: u32) -> (r: Result<(), Error>)
        requires
            old(self).disk.inv(),
        ensures
            final(self).disk.inv(),
            old(self).wf() && old(self).is_node(block) ==> match r {
                Ok(()) => {
                    &&& final(self).wf()
                    &&& final(self).only_meta_changed(old(self), block)
                    &&& final(self).record(block) == (NodeView {
                        mtime,
                        mtime_nsec,
                        ..old(self).record(block)
                    })
                    &&& old(self).valid() ==> final(self).valid()
                },
                Err(e) => e == Error::Io && !old(self).disk.reliable() && final(self).wf(),
            },
    {
        proof {
            if self.wf() && self.is_node(block) {
                lemma_node_not_free(self.disk@, self.header, self.model@, block as int);
            }
        }
        let mut rec = match self.node(block) {
            Ok((_, n)) => n,
            Err(_) => {
                return Err(Error::Io);
            },
        };
        rec.mtime = mtime;
        rec.mtime_nsec = mtime_nsec;
        let ghost d = self.disk@;
        if self.store(block, &rec).is_err() {
            return Err(Error::Io);
        }
        proof {
            if old(self).wf() && old(self).is_node(block) {
                lemma_meta_write(d, self.header, self.model@, block as int, self.disk@[block as int]);
                if old(self).valid() {
                    self.lemma_meta_keeps(old(self), block);
                    assert(self.dir_ok(block) == old(self).dir_ok(block)) by {
                        assert(self.kids(block) == old(self).kids(block));
                        if old(self).dir_ok(block) {
                            assert forall|i: int| 0 <= i < self.kids(block).len() implies self.is_node(
                                #[trigger] self.kids(block)[i],
                            ) && self.record(self.kids(block)[i]).parent == block && self.kids(
                                block,
                            )[i] != block by {
                                let c = old(self).kids(block)[i];
                                assert(old(self).is_node(c));
                                lemma_node_not_free(
                                    old(self).disk@,
                                    old(self).header,
                                    old(self).model@,
                                    c as int,
                                );
                            }
                        }
                    }
                    self.lemma_tree_kept(old(self), block);
                }
            }
        }
        Ok(())
    }

    /// What a change of the first record alone keeps.
    pub proof fn lemma_meta_keeps(&self, before: &Self, block: u64)
        requires
            before.wf(),
            before.is_node(block),
            self.only_meta_changed(before, block),
        ensures
            self.others_kept(before, block),
            self.is_node(block),
            self.data(block) == before.data(block),
            self.gives_less(before, 0),
    {
        lemma_node_not_free(before.disk@, before.header, before.model@, block as int);
        self.lemma_gives_same(before);
        assert forall|k: int|
            before.model@.chains.contains_key(k) && k != block implies #[trigger] self.model@.chains[k]
            == before.model@.chains[k] && self.disk@[k] == before.disk@[k] by {
            lemma_node_not_free(before.disk@, before.header, before.model@, k);
            assert(self.model@.chains[k] == before.model@.chains[k]);
            assert(self.disk@[k] == before.disk@[k]);
        }
    }

    /// What a change of bytes alone keeps.
    pub proof fn lemma_data_keeps(&self, before: &Self, block: u64)
        requires
            before.wf(),
            before.is_node(block),
            self.only_data_changed(before, block),
        ensures
            self.others_kept(before, block),
            self.is_node(block),
            self.record(block) == before.record(block),
            self.gives_less(before, 0),
    {
        lemma_node_not_free(before.disk@, before.header, before.model@, block as int);
        self.lemma_gives_same(before);
        assert(before.model@.chains.dom().contains(block as int));
        assert forall|k: int|
            before.model@.chains.contains_key(k) && k != block implies #[trigger] self.model@.chains[k]
            == before.model@.chains[k] && self.disk@[k] == before.disk@[k] by {
            lemma_node_not_free(before.disk@, before.header, before.model@, k);
            assert(before.model@.chains.dom().contains(k));
            assert(self.model@.chains.contains_key(k));
        }
    }

    /// Writes `buf` into the node at `block` from `offset` on, whatever kind
    /// of node it is, lengthening the node first where the bytes would go
    /// past its end. A node that was lengthened gets the modification time
    /// given.
    pub(crate) fn write_raw(
        &mut self,
        block: u64,
        offset: u64,
        buf: &[u8],
        mtime: u64,
        mtime_nsec: u32,
    ) -> (r: Result<usize, Error>)
        requires
            old(self).disk.inv(),
        ensures
            final(self).disk.inv(),
            old(self).wf() && old(self).is_node(block) ==> match r {
                Ok(n) => {
                    let data = old(self).data(block);
                    let rec = old(self).record(block);
                    &&& final(self).wf()
                    &&& final(self).is_node(block)
                    &&& n == buf@.len()
                    &&& written(data, offset as int, buf@, final(self).data(block))
                    &&& final(self).others_kept(old(self), block)
                    &&& final(self).record(block).same_meta(
                        if offset + buf@.len() > data.len() {
                            NodeView { mtime, mtime_nsec, ..rec }
                        } else {
                            rec
                        },
                    )
                    &&& final(self).loose_same(old(self))
                    &&& final(self).free_blocks() == old(self).free_blocks() - (if offset + buf@.len()
                        > data.len() {
                        old(self).growth_run(block, offset + buf@.len())
                    } else {
                        0
                    })
                    &&& final(self).free_blocks() + crate::shape::footprint(
                        final(self).model@.chains[block as int],
                    ) == old(self).free_blocks() + crate::shape::footprint(
                        old(self).model@.chains[block as int],
                    )
                    &&& offset + buf@.len() > data.len() ==> crate::shape::grew_from(
                        final(self).model@.chains[block as int],
                        old(self).model@.chains[block as int],
                        data.len() as int,
                    )
                    &&& old(self).neat(block) || offset + buf@.len() > data.len() ==> final(self).neat(block)
                    &&& old(self).packed(block) && old(self).neat(block) ==> final(self).packed(block)
                    &&& final(self).gives_less(
                        old(self),
                        if offset + buf@.len() > data.len() {
                            old(self).growth_run(block, offset + buf@.len())
                        } else {
                            0
                        },
                    )
                },
                Err(e) => {
                    &&& e == Error::NoSpace || e == Error::Io
                    &&& e == Error::Io ==> !old(self).disk.reliable() && final(self).wf()
                    &&& e == Error::NoSpace ==> {
                        &&& offset + buf@.len() > old(self).data(block).len()
                        &&& final(self).wf()
                        &&& final(self).nodes_kept(old(self))
                        &&& final(self).free_blocks() == old(self).free_blocks()
                        &&& final(self).loose_same(old(self))
                        &&& offset + buf@.len() > u64::MAX || !old(self).can_give(
                            old(self).growth_run(block, offset + buf@.len()),
                        )
                    }
                },
            },
    {
        let ghost known = self.wf() && self.is_node(block);
        let ghost data = self.data(block);
        proof {
            if known {
                lemma_node_not_free(self.disk@, self.header, self.model@, block as int);
            }
        }
        let total = match self.node_len(block) {
            Ok(t) => t,
            Err(_) => {
                return Err(Error::Io);
            },
        };
        let ghost at0 = *self;
        let end = match offset.checked_add(buf.len() as u64) {
            Some(v) => v,
            None => {
                proof {
                    self.lemma_same_kept(old(self));
                }
                return Err(Error::NoSpace);
            },
        };
        if end > total {
            match self.node_set_len(block, end) {
                Ok(()) => {},
                Err(Error::NoSpace) => {
                    proof {
                        if known {
                            at0.lemma_same_kept(old(self));
                            self.lemma_nodes_kept_twice(&at0, old(self));
                            assert forall|x: int| 0 <= x < old(self).disk@.len() implies #[trigger] self.loose(
                                x,
                            ) == old(self).loose(x) by {
                                assert(self.loose(x) == at0.loose(x));
                            }
                        }
                    }
                    return Err(Error::NoSpace);
                },
                Err(_) => {
                    return Err(Error::Io);
                },
            }
            let ghost at1 = *self;
            if self.touch(block, mtime, mtime_nsec).is_err() {
                return Err(Error::Io);
            }
            proof {
                if known {
                    self.lemma_meta_keeps(&at1, block);
                    self.lemma_others_kept_twice(&at1, old(self), block);
                    at0.lemma_gives_same(old(self));
                    at1.lemma_gives_less_twice(&at0, old(self), 0, old(self).growth_run(block, end as int));
                    self.lemma_gives_less_twice(&at1, old(self), old(self).growth_run(block, end as int), 0);
                    assert forall|x: int| 0 <= x < old(self).disk@.len() implies #[trigger] self.loose(
                        x,
                    ) == old(self).loose(x) by {
                        assert(self.loose(x) == at1.loose(x));
                        assert(at1.loose(x) == at0.loose(x));
                    }
                }
            }
        }
        let ghost at2 = *self;
        proof {
            if known {
                assert forall|x: int| 0 <= x < old(self).disk@.len() implies #[trigger] at2.loose(x)
                    == old(self).loose(x) by {}
                assert(at2.data(block).len() >= data.len());
                assert(at2.data(block).take(data.len() as int) =~= data);
                assert(at2.others_kept(old(self), block));
                if end <= total {
                    at2.lemma_gives_same(old(self));
                }
            }
        }
        let n = match self.overwrite(block, offset, buf) {
            Ok(n) => n,
            Err(_) => {
                return Err(Error::Io);
            },
        };
        proof {
            if known {
                self.lemma_data_keeps(&at2, block);
                self.lemma_others_kept_twice(&at2, old(self), block);
                self.lemma_gives_less_twice(
                    &at2,
                    old(self),
                    if end > total {
                        old(self).growth_run(block, end as int)
                    } else {
                        0
                    },
                    0,
                );
                assert forall|x: int| 0 <= x < old(self).disk@.len() implies #[trigger] self.loose(x)
                    == old(self).loose(x) by {
                    assert(self.loose(x) == at2.loose(x));
                }
                let after = self.data(block);
                assert forall|q: int| offset <= q < offset + buf@.len() implies #[trigger] after[q]
                    == buf@[q - offset] by {}
                assert forall|q: int|
                    0 <= q < data.len() && !(offset <= q < offset + buf@.len()) implies #[trigger] after[q]
                    == data[q] by {
                    assert(at2.data(block).take(data.len() as int)[q] == data[q]);
                }
            }
        }
        Ok(n)
    }

    /// Writes `buf` into the file at `block` from `offset` on and returns
    /// the number of bytes written, which is all of them.
    ///
    /// Where the bytes would go past the end of the file, the file is
    /// lengthened first and gets the modification time given. A directory is
    /// refused.
    pub fn write_node(&mut self, block: u64, offset: u64, buf: &[u8], mtime: u64, mtime_nsec: u32) -> (r:
        Result<usize, Error>)
        requires
            old(self).disk.inv(),
        ensures
            final(self).disk.inv(),
            old(self).wf() && old(self).is_node(block) ==> match r {
                Ok(n) => {
                    let data = old(self).data(block);
                    let rec = old(self).record(block);
                    &&& !rec.is_dir()
                    &&& final(self).wf()
                    &&& final(self).is_node(block)
                    &&& n == buf@.len()
                    &&& written(data, offset as int, buf@, final(self).data(block))
                    &&& final(self).others_kept(old(self), block)
                    &&& final(self).record(block).same_meta(
                        if offset + buf@.len() > data.len() {
                            NodeView { mtime, mtime_nsec, ..rec }
                        } else {
                            rec
                        },
                    )
                    &&& final(self).loose_same(old(self))
                    &&& final(self).free_blocks() == old(self).free_blocks() - (if offset + buf@.len()
                        > data.len() {
                        old(self).growth_run(block, offset + buf@.len())
                    } else {
                        0
                    })
                    &&& final(self).free_blocks() + crate::shape::footprint(
                        final(self).model@.chains[block as int],
                    ) == old(self).free_blocks() + crate::shape::footprint(
                        old(self).model@.chains[block as int],
                    )
                    &&& offset + buf@.len() > data.len() ==> crate::shape::grew_from(
                        final(self).model@.chains[block as int],
                        old(self).model@.chains[block as int],
                        data.len() as int,
                    )
                    &&& old(self).neat(block) || offset + buf@.len() > data.len() ==> final(self).neat(block)
                    &&& old(self).packed(block) && old(self).neat(block) ==> final(self).packed(block)
                    &&& final(self).gives_less(
                        old(self),
                        if offset + buf@.len() > data.len() {
                            old(self).growth_run(block, offset + buf@.len())
                        } else {
                            0
                        },
                    )
                    &&& old(self).valid() ==> final(self).valid()
                },
                Err(e) => {
                    &&& e == Error::IsDir || e == Error::NoSpace || e == Error::Io
                    &&& e == Error::Io ==> !old(self).disk.reliable() && final(self).wf()
                    &&& e == Error::NoSpace && old(self).valid() ==> final(self).valid()
                    &&& e == Error::IsDir ==> old(self).record(block).is_dir()
                    &&& old(self).record(block).is_dir() ==> e == Error::IsDir || e == Error::Io
                    &&& e == Error::IsDir ==> final(self).same_as(old(self))
                    &&& e == Error::NoSpace ==> {
                        &&& offset + buf@.len() > old(self).data(block).len()
                        &&& final(self).wf()
                        &&& final(self).nodes_kept(old(self))
                        &&& final(self).free_blocks() == old(self).free_blocks()
                        &&& final(self).loose_same(old(self))
                        &&& offset + buf@.len() > u64::MAX || !old(self).can_give(
                            old(self).growth_run(block, offset + buf@.len()),
                        )
                    }
                },
            },
    {
        let rec = match self.node(block) {
            Ok((_, n)) => n,
            Err(_) => {
                proof {
                    if old(self).wf() && old(self).is_node(block) {
                        lemma_node_not_free(self.disk@, self.header, self.model@, block as int);
                    }
                }
                return Err(Error::Io);
            },
        };
        if rec.is_dir() {
            return Err(Error::IsDir);
        }
        let ghost pre = *self;
        let r = self.write_raw(block, offset, buf, mtime, mtime_nsec);
        proof {
            if old(self).wf() && old(self).is_node(block) && r == Err::<usize, Error>(Error::NoSpace) {
                pre.lemma_same_kept(old(self));
                self.lemma_nodes_kept_twice(&pre, old(self));
                if old(self).valid() {
                    self.lemma_tree_from_nodes_kept(old(self));
                }
            }
            if old(self).valid() && old(self).is_node(block) && r is Ok {
                pre.lemma_same_valid(old(self));
                self.lemma_tree_kept(&pre, block);
            }
            if old(self).wf() && old(self).is_node(block) && r is Ok {
                pre.lemma_gives_same(old(self));
                self.lemma_gives_less_twice(
                    &pre,
                    old(self),
                    0,
                    if offset + buf@.len() > old(self).data(block).len() {
                        old(self).growth_run(block, offset + buf@.len())
                    } else {
                        0
                    },
                );
            }
            if old(self).wf() && old(self).is_node(block) && (r is Ok || r == Err::<usize, Error>(
                Error::NoSpace,
            )) {
                assert forall|x: int| 0 <= x < old(self).disk@.len() implies #[trigger] self.loose(x)
                    == old(self).loose(x) by {
                    assert(self.loose(x) == pre.loose(x));
                }
            }
        }
        r
    }
}

} // verus!
