use vstd::prelude::*;
use crate::content::lemma_node_not_free;
use crate::disk::Disk;
use crate::error::Error;
use crate::extend::{extended, lemma_node_extend, node_after_extend};
use crate::fs::FileSystem;
use crate::model::{chain_ok, extent_at, layout_ok, link_ok, slot_ok, Chain, Model, Owner};
use crate::node::{decode_node, Extent, Node};
use crate::reshape::{lemma_loose_write, lemma_node_append, node_after_append};
use crate::resize::{last_used, run_needed, Trail};
use crate::rewrite::lemma_base_mono;

verus! {

impl<D: Disk> FileSystem<D> {
    /// The number of blocks in a row that lengthening the node at `block`
    /// to `len` bytes takes off the free list.
    pub open spec fn growth_run(&self, block: u64, len: int) -> int {
        let c = self.model@.chains[block as int];
        run_needed(decode_node(self.disk@[c.blocks.last()]).extents, len - c.data.len())
    }

    /// What `extend_slot` asks for: `rec` is the last record of the node at
    /// `block`, as it stands at `last`, but for slot `j`, which holds `e`;
    /// the slots behind `j` are empty; and `e` is the old extent grown
    /// within its blocks, or a run of loose blocks in an empty slot.
    pub open spec fn can_extend(&self, block: u64, last: u64, rec: Node, j: int, e: Extent) -> bool {
        let c = self.model@.chains[block as int];
        let old_e = self.record(last).extents[j];
        &&& self.wf()
        &&& self.is_node(block)
        &&& last == c.blocks[c.blocks.len() - 1]
        &&& 0 <= j < 16
        &&& rec@.next == 0
        &&& rec@.extents == self.record(last).extents.update(j, e)
        &&& forall|j2: int| j < j2 < 16 ==> (#[trigger] self.record(last).extents[j2]).length == 0
        &&& c.total() + e.length - old_e.length <= u64::MAX
        &&& e.length > old_e.length
        &&& old_e.length > 0 ==> e.start == old_e.start && e.span() == old_e.span()
        &&& old_e.length == 0 ==> {
            &&& 3 <= e.start
            &&& e.start + e.span() <= self.disk@.len()
            &&& forall|x: int| e.start <= x < e.start + e.span() ==> #[trigger] self.loose(x)
        }
    }

    /// Writes `rec` as the last record of the node at `block`, one of whose
    /// extents has grown.
    pub(crate) fn extend_slot(&mut self, block: u64, last: u64, rec: &Node, j: usize, e: Extent) -> (r:
        Result<(), Error>)
        requires
            old(self).disk.inv(),
            rec.wf(),
        ensures
            final(self).disk.inv(),
            old(self).can_extend(block, last, *rec, j as int, e) ==> match r {
                Ok(()) => {
                    &&& final(self).wf()
                    &&& final(self).model@ == node_after_extend(
                        old(self).disk@,
                        old(self).model@,
                        block as int,
                        old(self).model@.chains[block as int].blocks.len() - 1,
                        j as int,
                        e,
                    )
                    &&& final(self).disk@ == old(self).disk@.update(
                        last as int,
                        final(self).disk@[last as int],
                    )
                    &&& final(self).record(last) == rec@
                    &&& final(self).header == old(self).header
                    &&& final(self).disk.reliable() == old(self).disk.reliable()
                },
                Err(e) => e == Error::Io && !old(self).disk.reliable() && final(self).wf(),
            },
    {
        let ghost d = self.disk@;
        let ghost m = self.model@;
        let ghost known = self.can_extend(block, last, *rec, j as int, e);
        proof {
            if known {
                let c = m.chains[block as int];
                assert(link_ok(
                    d,
                    m.owner,
                    c,
                    Owner::Link { head: block as int },
                    true,
                    c.blocks.len() - 1,
                ));
            }
        }
        if self.store(last, rec).is_err() {
            return Err(Error::Io);
        }
        proof {
            if known {
                let c = m.chains[block as int];
                let i = c.blocks.len() - 1;
                assert forall|j2: int| j < j2 < 16 implies (#[trigger] extent_at(
                    d,
                    c.blocks[i],
                    j2,
                )).length == 0 by {
                    assert(old(self).record(last).extents[j2].length == 0);
                }
                let old_e = extent_at(d, c.blocks[i], j as int);
                if old_e.length == 0 {
                    assert forall|x: int| e.start <= x < e.start + e.span() implies #[trigger] m.owner[x]
                        == Owner::Loose by {
                        assert(old(self).loose(x));
                    }
                }
                lemma_node_extend(
                    d,
                    self.header,
                    m,
                    block as int,
                    i,
                    j as int,
                    e,
                    self.disk@[last as int],
                );
            }
        }
        self.model = Ghost(
            node_after_extend(
                d,
                m,
                block as int,
                m.chains[block as int].blocks.len() - 1,
                j as int,
                e,
            ),
        );
        Ok(())
    }

    /// Makes the loose block `cont` the last record of the node at `block`:
    /// an empty record goes into `cont`, and `rec`, which names it, is
    /// written as the record at `last`.
    pub(crate) fn append_record(&mut self, block: u64, last: u64, rec: &Node, cont: u64) -> (r:
        Result<(), Error>)
        requires
            old(self).disk.inv(),
            rec.wf(),
        ensures
            final(self).disk.inv(),
            ({
                let c = old(self).model@.chains[block as int];
                &&& old(self).wf()
                &&& old(self).is_node(block)
                &&& last == c.blocks[c.blocks.len() - 1]
                &&& 3 <= cont < old(self).disk@.len()
                &&& old(self).loose(cont as int)
                &&& rec@.next == cont
                &&& rec@.extents == old(self).record(last).extents
            }) ==> match r {
                Ok(()) => {
                    &&& final(self).wf()
                    &&& final(self).model@ == node_after_append(
                        old(self).model@,
                        block as int,
                        cont as int,
                    )
                    &&& final(self).disk@.len() == old(self).disk@.len()
                    &&& forall|x: int|
                        0 <= x < old(self).disk@.len() && x != cont && x != last ==> #[trigger] final(self).disk@[x] == old(self).disk@[x]
                    &&& final(self).record(last) == rec@
                    &&& final(self).record(cont).next == 0
                    &&& final(self).record(cont).extents == Seq::new(
                        16,
                        |j: int| Extent { start: 0, length: 0 },
                    )
                    &&& final(self).header == old(self).header
                    &&& final(self).disk.reliable() == old(self).disk.reliable()
                },
                Err(e) => e == Error::Io && !old(self).disk.reliable() && final(self).wf(),
            },
    {
        let ghost d = self.disk@;
        let ghost m = self.model@;
        let ghost c = m.chains[block as int];
        let ghost known = self.wf() && self.is_node(block) && last == c.blocks[c.blocks.len() - 1]
            && 3 <= cont < self.disk@.len() && self.loose(cont as int) && rec@.next == cont
            && rec@.extents == self.record(last).extents;
        let fresh = Node::new(0, "".as_bytes(), block, 0, 0, 0, 0);
        proof {
            if known {
                assert(link_ok(
                    d,
                    m.owner,
                    c,
                    Owner::Link { head: block as int },
                    true,
                    c.blocks.len() - 1,
                ));
            }
        }
        if self.store(cont, &fresh).is_err() {
            return Err(Error::Io);
        }
        let ghost d1 = self.disk@;
        proof {
            if known {
                lemma_loose_write(d, self.header, m, cont as int, d1[cont as int]);
                assert(link_ok(
                    d,
                    m.owner,
                    c,
                    Owner::Link { head: block as int },
                    true,
                    c.blocks.len() - 1,
                ));
                assert(cont != last);
            }
        }
        if self.store(last, rec).is_err() {
            return Err(Error::Io);
        }
        proof {
            if known {
                assert forall|j: int| 0 <= j < 16 implies (#[trigger] extent_at(
                    d1,
                    cont as int,
                    j,
                )).length == 0 by {
                    assert(fresh@.extents[j].length == 0);
                }
                assert(c.blocks.last() == last);
                lemma_node_append(
                    d1,
                    self.header,
                    m,
                    block as int,
                    cont as int,
                    self.disk@[last as int],
                );
            }
        }
        self.model = Ghost(node_after_append(m, block as int, cont as int));
        Ok(())
    }
}

} // verus!

verus! {

impl<D: Disk> FileSystem<D> {
    /// What a step that keeps the nodes keeps of the node at `block` and of
    /// its last record.
    pub proof fn lemma_kept_view(&self, before: &Self, block: u64, last: u64)
        requires
            before.wf(),
            before.is_node(block),
            last == before.model@.chains[block as int].blocks.last(),
            self.nodes_kept(before),
        ensures
            self.is_node(block),
            self.record(last) == before.record(last),
            self.record(block) == before.record(block),
            self.others_kept(before, block),
            self.model@.chains == before.model@.chains,
            3 <= last < before.disk@.len(),
    {
        let d = before.disk@;
        let m = before.model@;
        let c = m.chains[block as int];
        assert(link_ok(d, m.owner, c, Owner::Link { head: block as int }, true, c.blocks.len() - 1));
        assert(before.node_side(last as int));
        lemma_node_not_free(d, before.header, m, block as int);
        assert(before.node_side(block as int));
        assert forall|k: int| m.chains.contains_key(k) && k != block implies #[trigger] self.model@.chains[k]
            == m.chains[k] && self.disk@[k] == d[k] by {
            lemma_node_not_free(d, before.header, m, k);
            assert(before.node_side(k));
        }
    }

    /// What `extend_slot` does to the node as its users see it.
    pub proof fn lemma_after_extend(&self, before: &Self, block: u64, last: u64, rec: Node, j: int, e: Extent)
        requires
            before.can_extend(block, last, rec, j, e),
            rec@.same_meta(before.record(last)),
            self.wf(),
            self.model@ == node_after_extend(
                before.disk@,
                before.model@,
                block as int,
                before.model@.chains[block as int].blocks.len() - 1,
                j,
                e,
            ),
            self.disk@ == before.disk@.update(last as int, self.disk@[last as int]),
            self.record(last) == rec@,
            self.header == before.header,
            self.disk.reliable() == before.disk.reliable(),
        ensures
            self.is_node(block),
            self.others_kept(before, block),
            self.data(block).len() == before.data(block).len() + e.length - before.record(
                last,
            ).extents[j].length,
            self.data(block).take(before.data(block).len() as int) == before.data(block),
            self.record(block).same_meta(before.record(block)),
            self.model@.chains[block as int].blocks == before.model@.chains[block as int].blocks,
            self.model@.free == before.model@.free,
            forall|x: int|
                #[trigger] before.loose(x) && !(e.start <= x < e.start + e.span()) ==> self.loose(x),
            before.record(last).extents[j].length > 0 ==> self.model@.owner == before.model@.owner,
            before.record(last).extents[j].length > 0 ==> self.loose_same(before),
            before.record(last).extents[j].length == 0 ==> self.loose_moved(
                before,
                0,
                0,
                e.start as int,
                e.start + e.span(),
            ),
            self.gives_less(before, 0),
    {
        let d = before.disk@;
        let m = before.model@;
        let c = m.chains[block as int];
        let i = c.blocks.len() - 1;
        assert(link_ok(d, m.owner, c, Owner::Link { head: block as int }, true, i));
        self.lemma_gives_same(before);
        assert(self.model@.chains.dom() =~= m.chains.dom());
        lemma_node_not_free(d, before.header, m, block as int);
        assert forall|k: int| m.chains.contains_key(k) && k != block implies #[trigger] self.model@.chains[k]
            == m.chains[k] && self.disk@[k] == d[k] by {
            lemma_node_not_free(d, before.header, m, k);
        }
        assert(self.data(block).take(before.data(block).len() as int) =~= before.data(block));
    }

    /// What `append_record` does to the node as its users see it.
    pub proof fn lemma_after_append(&self, before: &Self, block: u64, last: u64, rec: Node, cont: u64)
        requires
            before.wf(),
            before.is_node(block),
            last == before.model@.chains[block as int].blocks.last(),
            3 <= cont < before.disk@.len(),
            before.loose(cont as int),
            rec@.same_meta(before.record(last)),
            self.wf(),
            self.model@ == node_after_append(before.model@, block as int, cont as int),
            self.disk@.len() == before.disk@.len(),
            forall|x: int|
                0 <= x < before.disk@.len() && x != cont && x != last ==> #[trigger] self.disk@[x]
                    == before.disk@[x],
            self.record(last) == rec@,
            self.header == before.header,
            self.disk.reliable() == before.disk.reliable(),
        ensures
            self.is_node(block),
            self.others_kept(before, block),
            self.data(block) == before.data(block),
            self.record(block).same_meta(before.record(block)),
            self.model@.chains[block as int].blocks.last() == cont,
            self.model@.free == before.model@.free,
            forall|x: int| #[trigger] before.loose(x) && x != cont ==> self.loose(x),
            self.loose_moved(before, 0, 0, cont as int, cont + 1),
            self.gives_less(before, 0),
    {
        let d = before.disk@;
        let m = before.model@;
        let c = m.chains[block as int];
        let i = c.blocks.len() - 1;
        assert(link_ok(d, m.owner, c, Owner::Link { head: block as int }, true, i));
        self.lemma_gives_same(before);
        assert(self.model@.chains.dom() =~= m.chains.dom());
        lemma_node_not_free(d, before.header, m, block as int);
        assert forall|k: int| m.chains.contains_key(k) && k != block implies #[trigger] self.model@.chains[k]
            == m.chains[k] && self.disk@[k] == d[k] by {
            lemma_node_not_free(d, before.header, m, k);
        }
    }

    /// What two steps keep of the other nodes, both together keep.
    pub proof fn lemma_others_kept_twice(&self, mid: &Self, before: &Self, block: u64)
        requires
            mid.others_kept(before, block),
            self.others_kept(mid, block),
        ensures
            self.others_kept(before, block),
    {
        assert forall|k: int|
            before.model@.chains.contains_key(k) && k != block implies #[trigger] self.model@.chains[k]
            == before.model@.chains[k] && self.disk@[k] == before.disk@[k] by {
            assert(before.model@.chains.dom().contains(k));
            assert(mid.model@.chains.dom().contains(k));
            assert(mid.model@.chains.contains_key(k));
            assert(k != block);
            assert(mid.model@.chains[k] == before.model@.chains[k]);
            assert(mid.disk@[k] == before.disk@[k]);
            assert(self.model@.chains[k] == mid.model@.chains[k]);
            assert(self.disk@[k] == mid.disk@[k]);
        }
    }
}

} // verus!

verus! {

impl<D: Disk> FileSystem<D> {
    /// Lengthens the node at `block`, which holds `total` bytes and whose
    /// last record stands at `last`, to `len` bytes.
    ///
    /// The last extent first takes what its blocks still have room for. What
    /// is left goes into one new extent, in the next slot of the last
    /// record, or, where that record is full, in the first slot of a new
    /// record. The blocks are allocated before anything is written: when the
    /// free list cannot give them, the node stays as it is.
    #[verifier::rlimit(100)]
    #[verifier::spinoff_prover]
    pub(crate) fn grow(&mut self, block: u64, last: u64, total: u64, len: u64) -> (r: Result<(), Error>)
        requires
            old(self).disk.inv(),
        ensures
            final(self).disk.inv(),
            ({
                let c = old(self).model@.chains[block as int];
                &&& old(self).wf()
                &&& old(self).is_node(block)
                &&& last == c.blocks[c.blocks.len() - 1]
                &&& total == c.total()
                &&& len > total
            }) ==> match r {
                Ok(()) => {
                    &&& final(self).wf()
                    &&& final(self).is_node(block)
                    &&& final(self).data(block).len() == len
                    &&& final(self).data(block).take(total as int) == old(self).data(block)
                    &&& final(self).others_kept(old(self), block)
                    &&& final(self).record(block).same_meta(old(self).record(block))
                    &&& final(self).loose_same(old(self))
                    &&& final(self).free_blocks() == old(self).free_blocks() - old(self).growth_run(
                        block,
                        len as int,
                    )
                    &&& final(self).free_blocks() + crate::shape::footprint(
                        final(self).model@.chains[block as int],
                    ) == old(self).free_blocks() + crate::shape::footprint(
                        old(self).model@.chains[block as int],
                    )
                    &&& crate::shape::grew_from(
                        final(self).model@.chains[block as int],
                        old(self).model@.chains[block as int],
                        total as int,
                    )
                    &&& final(self).neat(block)
                    &&& old(self).packed(block) && old(self).neat(block) ==> final(self).packed(block)
                    &&& final(self).gives_less(old(self), old(self).growth_run(block, len as int))
                },
                Err(e) => {
                    &&& e == Error::NoSpace || e == Error::Io
                    &&& e == Error::Io ==> !old(self).disk.reliable() && final(self).wf()
                    &&& e == Error::NoSpace ==> {
                        &&& final(self).wf()
                        &&& final(self).nodes_kept(old(self))
                        &&& final(self).free_blocks() == old(self).free_blocks()
                        &&& final(self).loose_same(old(self))
                        &&& !old(self).can_give(old(self).growth_run(block, len as int))
                    }
                },
            },
    {
        let ghost c = self.model@.chains[block as int];
        let ghost known = self.wf() && self.is_node(block) && last == c.blocks[c.blocks.len() - 1]
            && total == c.total() && len > total;
        let ghost tag = Owner::Link { head: block as int };
        if len <= total {
            return Ok(());
        }
        proof {
            if known {
                assert(link_ok(self.disk@, self.model@.owner, c, tag, true, c.blocks.len() - 1));
            }
        }
        let mut rec = match self.node(last) {
            Ok((_, n)) => n,
            Err(_) => {
                return Err(Error::Io);
            },
        };
        let ghost rec0 = rec@;
        let used = last_used(&rec);
        let by = len - total;
        let mut take: u64 = 0;
        let mut slot: usize = 0;
        match used {
            Some(j) => {
                let part = rec.extents[j].length % 512;
                let room: u64 = if part == 0 {
                    0
                } else {
                    512 - part
                };
                take = if room < by {
                    room
                } else {
                    by
                };
                slot = j + 1;
            },
            None => {},
        }
        let rest = by - take;
        let mut start: u64 = 0;
        let mut need: u64 = 0;
        let mut cont: u64 = 0;
        let ghost at0 = *self;
        let ghost run = if rest == 0 {
            0
        } else {
            (rest + 511) / 512 + (if slot >= 16 {
                1int
            } else {
                0int
            })
        };
        proof {
            if known {
                assert(rec0 == old(self).record(last));
                assert(c.blocks.last() == last);
                assert(run == old(self).growth_run(block, len as int));
            }
            at0.lemma_same_kept(old(self));
        }
        if rest > 0 {
            need = if rest % 512 == 0 {
                rest / 512
            } else {
                rest / 512 + 1
            };
            start = match self.allocate(need) {
                Ok(s) => s,
                Err(Error::NoSpace) => {
                    proof {
                        if known {
                            crate::fit::lemma_fit_less(
                                old(self).disk@,
                                old(self).model@.free,
                                need as int,
                                run - need,
                            );
                            self.lemma_same_kept(&at0);
                            self.lemma_nodes_kept_twice(&at0, old(self));
                        }
                    }
                    return Err(Error::NoSpace);
                },
                Err(_) => {
                    return Err(Error::Io);
                },
            };
            proof {
                if known {
                    self.lemma_nodes_kept_twice(&at0, old(self));
                    assert forall|x: int| 0 <= x < old(self).disk@.len() implies #[trigger] self.loose(
                        x,
                    ) == (old(self).loose(x) || start <= x < start + need) by {
                        assert(self.loose(x) == (at0.loose(x) || start <= x < start + need));
                    }
                    assert forall|x: int| start <= x < start + need implies !#[trigger] old(self).loose(x) by {
                        assert(at0.model@.owner[x] is Held);
                    }
                }
            }
            if slot >= 16 {
                let ghost sa = *self;
                cont = match self.allocate(1) {
                    Ok(s) => s,
                    Err(Error::NoSpace) => {
                        let ghost sb = *self;
                        proof {
                            if known {
                                sb.lemma_same_kept(&sa);
                                sb.lemma_nodes_kept_twice(&sa, old(self));
                                assert forall|x: int| start <= x < start + need implies #[trigger] sb.loose(
                                    x,
                                ) by {
                                    assert(sa.loose(x));
                                }
                                assert(sb.range_loose(start, need));
                            }
                        }
                        if self.deallocate(start, need).is_err() {
                            return Err(Error::Io);
                        }
                        proof {
                            if known {
                                assert(!sa.can_give(1));
                                assert(!at0.can_give(1 + need));
                                self.lemma_nodes_kept_twice(&sb, old(self));
                                assert forall|x: int| 0 <= x < old(self).disk@.len() implies #[trigger] self.loose(
                                    x,
                                ) == old(self).loose(x) by {
                                    assert(self.loose(x) == (sb.loose(x) && !(start <= x < start
                                        + need)));
                                    assert(sb.loose(x) == sa.loose(x));
                                }
                            }
                        }
                        return Err(Error::NoSpace);
                    },
                    Err(_) => {
                        return Err(Error::Io);
                    },
                };
                proof {
                    if known {
                        self.lemma_gives_less_twice(&sa, old(self), need as int, 1);
                        self.lemma_nodes_kept_twice(&sa, old(self));
                        assert forall|x: int| 0 <= x < old(self).disk@.len() implies #[trigger] self.loose(
                            x,
                        ) == (old(self).loose(x) || start <= x < start + need || x == cont) by {
                            assert(self.loose(x) == (sa.loose(x) || cont <= x < cont + 1));
                        }
                        assert(!old(self).loose(cont as int)) by {
                            assert(sa.model@.owner[cont as int] is Held);
                            assert(sa.loose(cont as int) == (old(self).loose(cont as int) || start
                                <= cont < start + need));
                        }
                        assert(sa.model@.owner[cont as int] is Held);
                        assert forall|x: int| start <= x < start + need implies #[trigger] self.loose(
                            x,
                        ) && x != cont by {
                            assert(sa.loose(x));
                        }
                        assert(self.loose(cont as int));
                    }
                }
            }
        }
        let ghost at1 = *self;
        let ghost kk0 = match used {
            Some(j) => 16 * (c.blocks.len() - 1) + j,
            None => 16 * (c.blocks.len() - 1) - 1,
        };
        proof {
            if known {
                if rest == 0 {
                    at1.lemma_gives_same(old(self));
                }
                assert(at1.gives_less(old(self), run));
                let d0 = old(self).disk@;
                let o0 = old(self).model@.owner;
                let i = c.blocks.len() - 1;
                assert(link_ok(d0, o0, c, tag, true, i));
                assert forall|t: int| kk0 < t <= 16 * c.blocks.len() implies #[trigger] c.base[t]
                    == total by {
                    match used {
                        Some(j) => {
                            crate::extend::lemma_tail_sums(d0, o0, c, tag, i, j as int, 16);
                            crate::extend::lemma_tail_sums(d0, o0, c, tag, i, j as int, t - 16 * i);
                        },
                        None => {
                            old(self).lemma_empty_sums(c, i, 16, rec0.extents);
                            old(self).lemma_empty_sums(c, i, t - 16 * i, rec0.extents);
                        },
                    }
                }
                assert forall|t: int| 0 <= t <= 16 * c.blocks.len() implies #[trigger] c.base[t]
                    <= total by {
                    lemma_base_mono(d0, o0, c, tag, true, t, 16 * (c.blocks.len() as int));
                }
                assert(crate::shape::grew_from(c, c, total as int));
                assert(at0.free_blocks() == old(self).free_blocks());
                old(self).lemma_rising(block);
                if rest == 0 {
                    self.lemma_same_kept(old(self));
                }
                self.lemma_kept_view(old(self), block, last);
                assert(link_ok(
                    old(self).disk@,
                    old(self).model@.owner,
                    c,
                    tag,
                    true,
                    c.blocks.len() - 1,
                ));
                assert(rec0.next == 0);
            }
        }
        if take > 0 {
            match used {
                Some(j) => {
                    let e = rec.extents[j];
                    proof {
                        if known {
                            let i = c.blocks.len() - 1;
                            assert(slot_ok(
                                old(self).disk@,
                                old(self).model@.owner,
                                c,
                                true,
                                i,
                                j as int,
                            ));
                            lemma_base_mono(
                                old(self).disk@,
                                old(self).model@.owner,
                                c,
                                tag,
                                true,
                                16 * i + j + 1,
                                16 * (c.blocks.len() as int),
                            );
                            lemma_base_mono(
                                old(self).disk@,
                                old(self).model@.owner,
                                c,
                                tag,
                                true,
                                0,
                                16 * i + j,
                            );
                        }
                    }
                    let grown = match e.length.checked_add(take) {
                        Some(v) => v,
                        None => {
                            return Err(Error::Io);
                        },
                    };
                    let e2 = Extent { start: e.start, length: grown };
                    rec.extents[j] = e2;
                    proof {
                        if known {
                            assert(rec@.extents =~= at1.record(last).extents.update(j as int, e2));
                            assert(at1.can_extend(block, last, rec, j as int, e2));
                        }
                    }
                    if self.extend_slot(block, last, &rec, j, e2).is_err() {
                        return Err(Error::Io);
                    }
                    proof {
                        if known {
                            self.lemma_after_extend(&at1, block, last, rec, j as int, e2);
                            self.lemma_extend_shape(&at1, block, last, rec, j as int, e2);
                            self.lemma_others_kept_twice(&at1, old(self), block);
                            assert(self.loose_same(&at1));
                            assert(e2.span() == e.span());
                            if old(self).packed(block) {
                                assert(at1.packed(block));
                                self.lemma_slack_packed(&at1, block, last, rec, j as int, e2);
                            }
                            self.lemma_gives_less_twice(&at1, old(self), run, 0);
                        }
                    }
                },
                None => {},
            }
        }
        let ghost at2 = *self;
        let ghost rec2 = rec@;
        proof {
            if known {
                let c2 = at2.model@.chains[block as int];
                assert(at2.gives_less(old(self), run));
                assert(at1.model@.chains[block as int] == c);
                assert(c2.blocks == c.blocks);
                assert(crate::shape::grew_from(c2, c, total as int)) by {
                    assert forall|t: int| 0 <= t <= 16 * c.blocks.len() implies (if #[trigger] c2.base[t]
                        < total {
                        c2.base[t]
                    } else {
                        total as int
                    }) == c.base[t] by {
                        assert(c.base[t] <= total);
                        if t > kk0 {
                            assert(c.base[t] == total);
                        }
                    }
                }
                assert(crate::shape::footprint(c2) == crate::shape::footprint(c));
                assert(forall|t: int| kk0 < t <= 16 * c.blocks.len() ==> #[trigger] c2.base[t] >= total);
                assert(at2.free_blocks() == at1.free_blocks());
                if old(self).packed(block) && old(self).neat(block) {
                    assert(at2.packed(block));
                    if rest > 0 {
                        match used {
                            Some(j) => {
                                crate::resize::lemma_last_used(rec2.extents, j as int, 16);
                                assert(rec2.extents[j as int].length % 512 == 0);
                            },
                            None => {
                                crate::resize::lemma_none_used(rec2.extents, 16);
                            },
                        }
                        assert(at2.neat(block));
                        at2.lemma_ends_aligned(block, last);
                    }
                }
                assert(at2.loose_same(&at1));
                assert(rest == 0 ==> at2.loose_same(old(self)));
                assert(rest > 0 ==> forall|x: int|
                    0 <= x < old(self).disk@.len() ==> #[trigger] at2.loose(x) == (old(self).loose(x)
                        || start <= x < start + need || (slot >= 16 && x == cont)));
                assert(rest > 0 ==> forall|x: int|
                    start <= x < start + need || (slot >= 16 && x == cont) ==> !#[trigger] old(self).loose(x));
                assert(at2.is_node(block));
                assert(at2.record(last) == rec2);
                assert(at2.data(block).len() == total + take);
                assert(at2.data(block).take(total as int) =~= old(self).data(block));
                assert(rest > 0 ==> forall|x: int|
                    start <= x < start + need ==> #[trigger] at2.loose(x)) by {
                    if rest > 0 {
                        assert forall|x: int| start <= x < start + need implies #[trigger] at2.loose(
                            x,
                        ) by {
                            assert(at1.loose(x));
                        }
                    }
                }
                assert(slot >= 16 && rest > 0 ==> at2.loose(cont as int)) by {
                    if slot >= 16 && rest > 0 {
                        assert(at1.loose(cont as int));
                    }
                }
            }
        }
        if rest > 0 {
            let e3 = Extent { start, length: rest };
            if slot < 16 {
                rec.extents[slot] = e3;
                proof {
                    if known {
                        assert(rec@.extents =~= at2.record(last).extents.update(slot as int, e3));
                        assert(rec0.extents[slot as int].length == 0);
                        assert(at2.can_extend(block, last, rec, slot as int, e3));
                    }
                }
                if self.extend_slot(block, last, &rec, slot, e3).is_err() {
                    return Err(Error::Io);
                }
                proof {
                    if known {
                        self.lemma_after_extend(&at2, block, last, rec, slot as int, e3);
                        self.lemma_extend_shape(&at2, block, last, rec, slot as int, e3);
                        self.lemma_others_kept_twice(&at2, old(self), block);
                        self.lemma_gives_less_twice(&at2, old(self), run, 0);
                        assert(e3.span() == need);
                        let c2 = at2.model@.chains[block as int];
                        let cf = self.model@.chains[block as int];
                        assert(16 * (c.blocks.len() - 1) + slot == kk0 + 1);
                        assert(crate::shape::grew_from(cf, c, total as int)) by {
                            assert forall|t: int| 0 <= t <= 16 * c.blocks.len() implies (if #[trigger] cf.base[t]
                                < total {
                                cf.base[t]
                            } else {
                                total as int
                            }) == c.base[t] by {
                                assert((if c2.base[t] < total {
                                    c2.base[t]
                                } else {
                                    total as int
                                }) == c.base[t]);
                                if t > kk0 {
                                    assert(c2.base[t] >= total);
                                }
                            }
                        }
                        assert(crate::shape::footprint(cf) == crate::shape::footprint(c) + need);
                        assert(self.free_blocks() == old(self).free_blocks() - need);
                        if old(self).packed(block) && old(self).neat(block) {
                            self.lemma_new_packed(&at2, block, last, rec, slot as int, e3);
                        }
                        assert forall|x: int| 0 <= x < old(self).disk@.len() implies #[trigger] self.loose(
                            x,
                        ) == old(self).loose(x) by {
                            assert(self.loose(x) == (at2.loose(x) && !(start <= x < start + need)));
                        }
                        assert(self.data(block).take(total as int) =~= old(self).data(block)) by {
                            assert(self.data(block).take(at2.data(block).len() as int) == at2.data(
                                block,
                            ));
                        }
                    }
                }
            } else {
                rec.next = cont;
                if self.append_record(block, last, &rec, cont).is_err() {
                    return Err(Error::Io);
                }
                let ghost at3 = *self;
                let mut fresh = Node::new(0, "".as_bytes(), block, 0, 0, 0, 0);
                fresh.extents[0] = e3;
                proof {
                    if known {
                        self.lemma_after_append(&at2, block, last, rec, cont);
                        self.lemma_append_shape(&at2, block, cont);
                        self.lemma_others_kept_twice(&at2, old(self), block);
                        at3.lemma_gives_less_twice(&at2, old(self), run, 0);
                        assert(fresh@.extents =~= at3.record(cont).extents.update(0, e3));
                        assert forall|x: int| start <= x < start + need implies #[trigger] at3.loose(
                            x,
                        ) by {
                            assert(at2.loose(x));
                        }
                        assert(at3.can_extend(block, cont, fresh, 0, e3));
                    }
                }
                if self.extend_slot(block, cont, &fresh, 0, e3).is_err() {
                    return Err(Error::Io);
                }
                proof {
                    if known {
                        self.lemma_after_extend_tail(&at3, block, cont, fresh, e3);
                        self.lemma_extend_shape(&at3, block, cont, fresh, 0, e3);
                        self.lemma_others_kept_twice(&at3, old(self), block);
                        self.lemma_gives_less_twice(&at3, old(self), run, 0);
                        assert(e3.span() == need);
                        let c2 = at2.model@.chains[block as int];
                        let c3 = at3.model@.chains[block as int];
                        let cf = self.model@.chains[block as int];
                        let n0 = c.blocks.len() as int;
                        assert(c3.blocks.len() == n0 + 1);
                        assert(c2.base[16 * n0] >= total);
                        assert(crate::shape::grew_from(cf, c, total as int)) by {
                            assert forall|t: int| 0 <= t <= 16 * n0 implies (if #[trigger] cf.base[t]
                                < total {
                                cf.base[t]
                            } else {
                                total as int
                            }) == c.base[t] by {
                                assert(cf.base[t] == c3.base[t]);
                                assert(c3.base[t] == c2.base[t]);
                                assert((if c2.base[t] < total {
                                    c2.base[t]
                                } else {
                                    total as int
                                }) == c.base[t]);
                            }
                        }
                        assert(crate::shape::footprint(cf) == crate::shape::footprint(c) + need + 1);
                        assert(self.free_blocks() == old(self).free_blocks() - need - 1);
                        if old(self).packed(block) && old(self).neat(block) {
                            at3.lemma_append_packed(&at2, block, cont);
                            self.lemma_new_packed(&at3, block, cont, fresh, 0, e3);
                        }
                        assert forall|x: int| 0 <= x < old(self).disk@.len() implies #[trigger] self.loose(
                            x,
                        ) == old(self).loose(x) by {
                            assert(self.loose(x) == (at3.loose(x) && !(start <= x < start + need)));
                            assert(at3.loose(x) == (at2.loose(x) && x != cont));
                        }
                        assert(self.data(block).take(total as int) =~= old(self).data(block)) by {
                            assert(self.data(block).take(at2.data(block).len() as int) == at2.data(
                                block,
                            ));
                        }
                    }
                }
            }
        }
        Ok(())
    }

    /// What `extend_slot` does to the node when the record written is not
    /// the node's first.
    pub proof fn lemma_after_extend_tail(&self, before: &Self, block: u64, last: u64, rec: Node, e: Extent)
        requires
            before.can_extend(block, last, rec, 0, e),
            before.record(last).extents[0].length == 0,
            last != block,
            self.wf(),
            self.model@ == node_after_extend(
                before.disk@,
                before.model@,
                block as int,
                before.model@.chains[block as int].blocks.len() - 1,
                0,
                e,
            ),
            self.disk@ == before.disk@.update(last as int, self.disk@[last as int]),
            self.header == before.header,
            self.disk.reliable() == before.disk.reliable(),
        ensures
            self.is_node(block),
            self.others_kept(before, block),
            self.data(block).len() == before.data(block).len() + e.length - before.record(
                last,
            ).extents[0].length,
            self.data(block).take(before.data(block).len() as int) == before.data(block),
            self.record(block) == before.record(block),
            self.loose_moved(before, 0, 0, e.start as int, e.start + e.span()),
            self.gives_less(before, 0),
    {
        let d = before.disk@;
        let m = before.model@;
        let c = m.chains[block as int];
        let i = c.blocks.len() - 1;
        assert(link_ok(d, m.owner, c, Owner::Link { head: block as int }, true, i));
        self.lemma_gives_same(before);
        assert(self.model@.chains.dom() =~= m.chains.dom());
        lemma_node_not_free(d, before.header, m, block as int);
        assert forall|k: int| m.chains.contains_key(k) && k != block implies #[trigger] self.model@.chains[k]
            == m.chains[k] && self.disk@[k] == d[k] by {
            lemma_node_not_free(d, before.header, m, k);
        }
        assert(self.data(block).take(before.data(block).len() as int) =~= before.data(block));
    }

    /// Sets the length of the node at `block` to `len` bytes.
    ///
    /// A shorter node keeps its first `len` bytes and returns the blocks
    /// behind them to the free list. A longer node keeps its bytes and gains
    /// blocks from the free list; what the new bytes hold is not determined.
    pub fn node_set_len(&mut self, block: u64, len: u64) -> (r: Result<(), Error>)
        requires
            old(self).disk.inv(),
        ensures
            final(self).disk.inv(),
            block == 0 ==> r == Err::<(), Error>(Error::NotFound) && final(self).same_as(old(self)),
            old(self).wf() && old(self).is_node(block) ==> match r {
                Ok(()) => {
                    let data = old(self).data(block);
                    &&& final(self).wf()
                    &&& final(self).is_node(block)
                    &&& final(self).data(block).len() == len
                    &&& len <= data.len() ==> final(self).data(block) == data.take(len as int)
                    &&& len >= data.len() ==> final(self).data(block).take(data.len() as int) == data
                    &&& final(self).others_kept(old(self), block)
                    &&& final(self).record(block).same_meta(old(self).record(block))
                    &&& len == 0 ==> final(self).model@.chains[block as int].blocks.len() == 1
                    &&& old(self).valid() && !old(self).record(block).is_dir() ==> final(self).valid()
                    &&& final(self).loose_same(old(self))
                    &&& len > data.len() ==> final(self).free_blocks() == old(self).free_blocks()
                        - old(self).growth_run(block, len as int)
                    &&& len <= data.len() ==> final(self).free_blocks() >= old(self).free_blocks() + (
                    data.len() - len) / 512
                    &&& final(self).free_blocks() + crate::shape::footprint(
                        final(self).model@.chains[block as int],
                    ) == old(self).free_blocks() + crate::shape::footprint(
                        old(self).model@.chains[block as int],
                    )
                    &&& len <= data.len() ==> crate::shape::footprint(
                        final(self).model@.chains[block as int],
                    ) == crate::shape::shrunk_footprint(
                        old(self).model@.chains[block as int],
                        len as int,
                    )
                    &&& len > data.len() ==> crate::shape::grew_from(
                        final(self).model@.chains[block as int],
                        old(self).model@.chains[block as int],
                        data.len() as int,
                    )
                    &&& final(self).neat(block)
                    &&& old(self).packed(block) && old(self).neat(block) ==> final(self).packed(block)
                    &&& final(self).gives_less(
                        old(self),
                        if len > data.len() {
                            old(self).growth_run(block, len as int)
                        } else {
                            0
                        },
                    )
                },
                Err(e) => {
                    &&& e == Error::NoSpace || e == Error::Io
                    &&& e == Error::Io ==> !old(self).disk.reliable() && final(self).wf()
                    &&& e == Error::NoSpace && old(self).valid() ==> final(self).valid()
                    &&& e == Error::NoSpace ==> {
                        &&& len > old(self).data(block).len()
                        &&& final(self).wf()
                        &&& final(self).nodes_kept(old(self))
                        &&& final(self).free_blocks() == old(self).free_blocks()
                        &&& final(self).loose_same(old(self))
                        &&& !old(self).can_give(old(self).growth_run(block, len as int))
                    }
                },
            },
    {
        let ghost known = self.wf() && self.is_node(block);
        proof {
            if known {
                lemma_node_not_free(self.disk@, self.header, self.model@, block as int);
                assert(self.model@.chains.dom() =~= old(self).model@.chains.dom());
            }
        }
        if block == 0 {
            return Err(Error::NotFound);
        }
        let trail = match self.trail(block) {
            Ok(t) => t,
            Err(_) => {
                return Err(Error::Io);
            },
        };
        let count = trail.blocks.len();
        if count == 0 {
            return Err(Error::Io);
        }
        let total = trail.total;
        let ghost start = *self;
        let r = self.set_len_from(block, &trail, len);
        proof {
            if known && r == Err::<(), Error>(Error::NoSpace) {
                start.lemma_same_kept(old(self));
                self.lemma_nodes_kept_twice(&start, old(self));
                if old(self).valid() {
                    self.lemma_tree_from_nodes_kept(old(self));
                }
            }
            if known && r is Ok && old(self).valid() && !old(self).record(block).is_dir() {
                start.lemma_same_valid(old(self));
                self.lemma_tree_kept(&start, block);
            }
            if known && r is Ok {
                start.lemma_gives_same(old(self));
                self.lemma_gives_less_twice(
                    &start,
                    old(self),
                    0,
                    if len > old(self).data(block).len() {
                        old(self).growth_run(block, len as int)
                    } else {
                        0
                    },
                );
            }
            if known && (r is Ok || r == Err::<(), Error>(Error::NoSpace)) {
                assert forall|x: int| 0 <= x < old(self).disk@.len() implies #[trigger] self.loose(x)
                    == old(self).loose(x) by {
                    assert(self.loose(x) == start.loose(x));
                }
            }
        }
        r
    }

    /// `trail` is the walk of the node at `block`.
    pub open spec fn walked(&self, block: u64, trail: Trail) -> bool {
        let c = self.model@.chains[block as int];
        &&& self.wf()
        &&& self.is_node(block)
        &&& trail.blocks@.len() == c.blocks.len()
        &&& trail.total == c.total()
        &&& forall|i: int|
            0 <= i < c.blocks.len() ==> #[trigger] trail.blocks@[i] == c.blocks[i] && trail.starts@[i]
                == c.base[16 * i]
    }

    /// Sets the length of the node at `block`, whose records are those of
    /// `trail`, to `len` bytes.
    pub(crate) fn set_len_from(&mut self, block: u64, trail: &Trail, len: u64) -> (r: Result<(), Error>)
        requires
            old(self).disk.inv(),
            trail.blocks@.len() == trail.starts@.len(),
            trail.blocks@.len() >= 1,
        ensures
            final(self).disk.inv(),
            old(self).walked(block, *trail) ==> match r {
                Ok(()) => {
                    let data = old(self).data(block);
                    &&& final(self).wf()
                    &&& final(self).is_node(block)
                    &&& final(self).data(block).len() == len
                    &&& len <= data.len() ==> final(self).data(block) == data.take(len as int)
                    &&& len >= data.len() ==> final(self).data(block).take(data.len() as int) == data
                    &&& final(self).others_kept(old(self), block)
                    &&& final(self).record(block).same_meta(old(self).record(block))
                    &&& len == 0 ==> final(self).model@.chains[block as int].blocks.len() == 1
                    &&& final(self).loose_same(old(self))
                    &&& len > data.len() ==> final(self).free_blocks() == old(self).free_blocks()
                        - old(self).growth_run(block, len as int)
                    &&& len <= data.len() ==> final(self).free_blocks() >= old(self).free_blocks() + (
                    data.len() - len) / 512
                    &&& final(self).free_blocks() + crate::shape::footprint(
                        final(self).model@.chains[block as int],
                    ) == old(self).free_blocks() + crate::shape::footprint(
                        old(self).model@.chains[block as int],
                    )
                    &&& len <= data.len() ==> crate::shape::footprint(
                        final(self).model@.chains[block as int],
                    ) == crate::shape::shrunk_footprint(
                        old(self).model@.chains[block as int],
                        len as int,
                    )
                    &&& len > data.len() ==> crate::shape::grew_from(
                        final(self).model@.chains[block as int],
                        old(self).model@.chains[block as int],
                        data.len() as int,
                    )
                    &&& final(self).neat(block)
                    &&& old(self).packed(block) && old(self).neat(block) ==> final(self).packed(block)
                    &&& final(self).gives_less(
                        old(self),
                        if len > data.len() {
                            old(self).growth_run(block, len as int)
                        } else {
                            0
                        },
                    )
                },
                Err(e) => {
                    &&& e == Error::NoSpace || e == Error::Io
                    &&& e == Error::Io ==> !old(self).disk.reliable() && final(self).wf()
                    &&& e == Error::NoSpace ==> {
                        &&& len > old(self).data(block).len()
                        &&& final(self).wf()
                        &&& final(self).nodes_kept(old(self))
                        &&& final(self).free_blocks() == old(self).free_blocks()
                        &&& final(self).loose_same(old(self))
                        &&& !old(self).can_give(old(self).growth_run(block, len as int))
                    }
                },
            },
    {
        let ghost known = self.walked(block, *trail);
        proof {
            if known {
                assert(self.model@.chains.dom() =~= old(self).model@.chains.dom());
            }
        }
        let count = trail.blocks.len();
        let total = trail.total;
        if len > total {
            proof {
                if known {
                    assert(trail.blocks@[count - 1] == self.model@.chains[block as int].blocks[count
                        - 1]);
                }
            }
            self.grow(block, trail.blocks[count - 1], total, len)
        } else if len < total || count > 1 {
            assert(known ==> self.can_shrink(block, *trail, len));
            self.shrink(block, trail, len)
        } else {
            proof {
                if known {
                    let c = self.model@.chains[block as int];
                    assert(crate::shape::kept(c.base, 1, len as int) == 1);
                    assert forall|t: int| 0 <= t <= 16 implies crate::shape::cut_base(
                        c.base,
                        1,
                        len as int,
                    )[t] == c.base[t] by {
                        lemma_base_mono(
                            self.disk@,
                            self.model@.owner,
                            c,
                            Owner::Link { head: block as int },
                            true,
                            t,
                            16,
                        );
                    }
                    crate::shape::lemma_spans_same(
                        crate::shape::cut_base(c.base, 1, len as int),
                        c.base,
                        16,
                    );
                    assert(self.data(block).take(len as int) =~= self.data(block));
                    self.lemma_gives_same(old(self));
                }
            }
            Ok(())
        }
    }
}

} // verus!

verus! {

impl<D: Disk> FileSystem<D> {
    /// The number of blocks that could be allocated: those of the free
    /// extents, and the records of the free list after the first.
    pub fn free_count(&mut self) -> (r: Result<u64, Error>)
        requires
            old(self).disk.inv(),
        ensures
            final(self).disk.inv(),
            final(self).same_as(old(self)),
            old(self).wf() ==> match r {
                Ok(n) => n == old(self).free_blocks(),
                Err(e) => e == Error::Io && !old(self).disk.reliable() && final(self).wf(),
            },
    {
        let free = self.header.free;
        let trail = match self.trail(free) {
            Ok(t) => t,
            Err(_) => {
                return Err(Error::Io);
            },
        };
        let records = trail.blocks.len() as u64;
        proof {
            if old(self).wf() {
                let m = self.model@;
                crate::count::lemma_total_bound(self.disk@, m.owner, m.free, Owner::FreeLink, false);
                crate::rewrite::lemma_chain_short(self.disk@, m.owner, m.free, Owner::FreeLink, false);
            }
        }
        if records == 0 {
            return Err(Error::Io);
        }
        match (trail.total / 512).checked_add(records - 1) {
            Some(n) => Ok(n),
            None => Err(Error::Io),
        }
    }
}

} // verus!

verus! {

impl<D: Disk> FileSystem<D> {
    /// Only the last extent in use of the node at `block` may fill its last
    /// block in part.
    pub open spec fn packed(&self, block: u64) -> bool {
        crate::shape::packed(self.model@.chains[block as int])
    }

    /// The places of a node's bytes never fall.
    pub proof fn lemma_rising(&self, block: u64)
        requires
            self.wf(),
            self.is_node(block),
        ensures
            crate::shape::rising(
                self.model@.chains[block as int].base,
                self.model@.chains[block as int].blocks.len() as int,
            ),
    {
        let c = self.model@.chains[block as int];
        assert forall|t1: int, t2: int| 0 <= t1 <= t2 <= 16 * c.blocks.len() implies #[trigger] c.base[t1]
            <= #[trigger] c.base[t2] by {
            lemma_base_mono(
                self.disk@,
                self.model@.owner,
                c,
                Owner::Link { head: block as int },
                true,
                t1,
                t2,
            );
        }
    }

    /// In a record whose slots are all empty, the places stand still.
    pub proof fn lemma_empty_sums(&self, c: Chain, i: int, t: int, exts: Seq<Extent>)
        requires
            0 <= i < c.blocks.len(),
            0 <= t <= 16,
            link_ok(self.disk@, self.model@.owner, c, Owner::Link { head: c.blocks[0] }, true, i),
            exts == decode_node(self.disk@[c.blocks[i]]).extents,
            forall|k: int| 0 <= k < 16 ==> (#[trigger] exts[k]).length == 0,
        ensures
            c.base[16 * i + t] == c.base[16 * i],
        decreases t,
    {
        if t > 0 {
            self.lemma_empty_sums(c, i, t - 1, exts);
            assert(slot_ok(self.disk@, self.model@.owner, c, true, i, t - 1));
            assert(exts[t - 1].length == 0);
        }
    }

    /// The last record of the node at `block` holds bytes, or is its only
    /// record.
    pub open spec fn neat(&self, block: u64) -> bool {
        let c = self.model@.chains[block as int];
        c.blocks.len() == 1 || c.base[16 * (c.blocks.len() - 1)] < c.total()
    }

    /// What `extend_slot` does to the places of the node's bytes and to the
    /// blocks that the node takes up.
    pub proof fn lemma_extend_shape(&self, before: &Self, block: u64, last: u64, rec: Node, j: int, e: Extent)
        requires
            before.can_extend(block, last, rec, j, e),
            self.model@ == node_after_extend(
                before.disk@,
                before.model@,
                block as int,
                before.model@.chains[block as int].blocks.len() - 1,
                j,
                e,
            ),
        ensures
            ({
                let c = before.model@.chains[block as int];
                let c2 = self.model@.chains[block as int];
                let was = before.record(last).extents[j];
                &&& c2.blocks == c.blocks
                &&& c2.base == crate::frame::shift(
                    c.base,
                    16 * (c.blocks.len() - 1) + j,
                    e.length - was.length,
                )
                &&& c.base[16 * (c.blocks.len() - 1) + j + 1] == c.base[16 * (c.blocks.len() - 1) + j]
                    + was.length
                &&& crate::shape::footprint(c2) == crate::shape::footprint(c) + e.span() - was.span()
            }),
    {
        let d = before.disk@;
        let m = before.model@;
        let c = m.chains[block as int];
        let i = c.blocks.len() - 1;
        assert(link_ok(d, m.owner, c, Owner::Link { head: block as int }, true, i));
        assert(slot_ok(d, m.owner, c, true, i, j));
        let was = before.record(last).extents[j];
        crate::shape::lemma_spans_shift(c.base, 16 * i + j, e.length - was.length, 16 * (i + 1));
    }

    /// What `append_record` does to the places of the node's bytes and to
    /// the blocks that the node takes up.
    pub proof fn lemma_append_shape(&self, before: &Self, block: u64, cont: u64)
        requires
            before.wf(),
            before.is_node(block),
            self.model@ == node_after_append(before.model@, block as int, cont as int),
        ensures
            ({
                let c = before.model@.chains[block as int];
                let c2 = self.model@.chains[block as int];
                &&& c2.blocks == c.blocks.push(cont as int)
                &&& c2.base == c.base + Seq::new(16, |t: int| c.total())
                &&& crate::shape::footprint(c2) == crate::shape::footprint(c) + 1
            }),
    {
        let c = before.model@.chains[block as int];
        let c2 = self.model@.chains[block as int];
        let n = c.blocks.len() as int;
        assert(link_ok(
            before.disk@,
            before.model@.owner,
            c,
            Owner::Link { head: block as int },
            true,
            0,
        ));
        crate::shape::lemma_spans_same(c2.base, c.base, 16 * n);
        assert forall|t: int| 16 * n <= t < 16 * n + 16 implies #[trigger] c2.base[t + 1]
            == c2.base[t] by {}
        crate::shape::lemma_spans_flat(c2.base, 16 * n, 16 * n + 16);
    }
}

} // verus!

verus! {

impl<D: Disk> FileSystem<D> {
    /// Every extent of the node at `block` ends on a block boundary.
    pub open spec fn aligned(&self, block: u64) -> bool {
        crate::shape::aligned_base(
            self.model@.chains[block as int].base,
            self.model@.chains[block as int].blocks.len() as int,
        )
    }

    /// Behind the last slot in use of the last record, the places stand at
    /// the end of the node's bytes.
    pub proof fn lemma_tail_places(&self, block: u64, last: u64, j: int)
        requires
            self.wf(),
            self.is_node(block),
            last == self.model@.chains[block as int].blocks.last(),
            -1 <= j < 16,
            forall|j2: int| j < j2 < 16 ==> (#[trigger] self.record(last).extents[j2]).length == 0,
        ensures
            ({
                let c = self.model@.chains[block as int];
                let i = c.blocks.len() - 1;
                forall|t: int| 16 * i + j < t <= 16 * c.blocks.len() ==> #[trigger] c.base[t] == c.total()
            }),
    {
        let c = self.model@.chains[block as int];
        let i = c.blocks.len() - 1;
        let tag = Owner::Link { head: block as int };
        assert(link_ok(self.disk@, self.model@.owner, c, tag, true, i));
        assert forall|t: int| 16 * i + j < t <= 16 * c.blocks.len() implies #[trigger] c.base[t]
            == c.total() by {
            self.lemma_tail_from(block, last, j, t - 16 * i);
            self.lemma_tail_from(block, last, j, 16);
        }
    }

    /// Behind slot `j` of the last record, whose later slots are empty, the
    /// places stand still.
    pub proof fn lemma_tail_from(&self, block: u64, last: u64, j: int, t: int)
        requires
            self.wf(),
            self.is_node(block),
            last == self.model@.chains[block as int].blocks.last(),
            -1 <= j < t <= 16,
            forall|j2: int| j < j2 < 16 ==> (#[trigger] self.record(last).extents[j2]).length == 0,
        ensures
            ({
                let c = self.model@.chains[block as int];
                let i = c.blocks.len() - 1;
                c.base[16 * i + t] == c.base[16 * i + j + 1]
            }),
        decreases t,
    {
        let c = self.model@.chains[block as int];
        let i = c.blocks.len() - 1;
        let tag = Owner::Link { head: block as int };
        assert(link_ok(self.disk@, self.model@.owner, c, tag, true, i));
        if t > j + 1 {
            self.lemma_tail_from(block, last, j, t - 1);
            assert(slot_ok(self.disk@, self.model@.owner, c, true, i, t - 1));
            assert(self.record(last).extents[t - 1].length == 0);
        }
    }

    /// The node stays packed when its last extent in use grows within its
    /// blocks.
    pub proof fn lemma_slack_packed(&self, before: &Self, block: u64, last: u64, rec: Node, j: int, e: Extent)
        requires
            before.can_extend(block, last, rec, j, e),
            before.record(last).extents[j].length > 0,
            before.packed(block),
            self.model@ == node_after_extend(
                before.disk@,
                before.model@,
                block as int,
                before.model@.chains[block as int].blocks.len() - 1,
                j,
                e,
            ),
        ensures
            self.packed(block),
    {
        let c = before.model@.chains[block as int];
        let n = c.blocks.len() as int;
        let i = n - 1;
        self.lemma_extend_shape(before, block, last, rec, j, e);
        before.lemma_rising(block);
        before.lemma_tail_places(block, last, j);
        crate::shape::lemma_packed_slack(
            c.base,
            n,
            16 * i + j,
            e.length - before.record(last).extents[j].length,
        );
    }

    /// Where the last extent in use of a packed node ends on a block
    /// boundary, or the node holds nothing, all its extents do.
    pub proof fn lemma_ends_aligned(&self, block: u64, last: u64)
        requires
            self.wf(),
            self.is_node(block),
            self.packed(block),
            self.neat(block),
            last == self.model@.chains[block as int].blocks.last(),
            ({
                let j = crate::resize::last_used_slot(self.record(last).extents, 16);
                j >= 0 ==> self.record(last).extents[j].length % 512 == 0
            }),
        ensures
            self.aligned(block),
    {
        let c = self.model@.chains[block as int];
        let n = c.blocks.len() as int;
        let i = n - 1;
        let exts = self.record(last).extents;
        let j = crate::resize::last_used_slot(exts, 16);
        let tag = Owner::Link { head: block as int };
        assert(link_ok(self.disk@, self.model@.owner, c, tag, true, i));
        self.lemma_last_used_facts(exts, 16);
        self.lemma_rising(block);
        self.lemma_tail_places(block, last, j);
        if j >= 0 {
            assert(slot_ok(self.disk@, self.model@.owner, c, true, i, j));
            crate::shape::lemma_all_aligned(c.base, n, 16 * i + j);
        } else {
            assert forall|k: int| 0 <= k < 16 * n implies #[trigger] crate::shape::slot_len(c.base, k)
                % 512 == 0 by {
                assert(c.base[16 * i] == c.total());
                assert(n == 1);
                assert(c.base[k] == c.total() && c.base[k + 1] == c.total());
            }
        }
    }

    /// The last slot in use holds an extent, and the slots behind it hold
    /// none.
    pub proof fn lemma_last_used_facts(&self, exts: Seq<Extent>, k: int)
        requires
            0 <= k <= 16,
        ensures
            ({
                let j = crate::resize::last_used_slot(exts, k);
                &&& -1 <= j < k
                &&& j >= 0 ==> exts[j].length > 0
                &&& forall|t: int| j < t < k ==> (#[trigger] exts[t]).length <= 0
            }),
        decreases k,
    {
        if k > 0 && !(exts[k - 1].length > 0) {
            self.lemma_last_used_facts(exts, k - 1);
        }
    }

    /// A node whose extents all end on block boundaries is packed after an
    /// empty slot behind them takes an extent.
    pub proof fn lemma_new_packed(&self, before: &Self, block: u64, last: u64, rec: Node, j: int, e: Extent)
        requires
            before.can_extend(block, last, rec, j, e),
            before.record(last).extents[j].length == 0,
            before.aligned(block),
            self.model@ == node_after_extend(
                before.disk@,
                before.model@,
                block as int,
                before.model@.chains[block as int].blocks.len() - 1,
                j,
                e,
            ),
        ensures
            self.packed(block),
    {
        let c = before.model@.chains[block as int];
        let n = c.blocks.len() as int;
        let i = n - 1;
        self.lemma_extend_shape(before, block, last, rec, j, e);
        before.lemma_tail_places(block, last, j);
        assert(c.base[16 * i + j] == c.total()) by {
            let tag = Owner::Link { head: block as int };
            assert(link_ok(before.disk@, before.model@.owner, c, tag, true, i));
            assert(slot_ok(before.disk@, before.model@.owner, c, true, i, j));
        }
        crate::shape::lemma_packed_new(c.base, n, 16 * i + j, e.length as int);
    }

    /// An empty record behind a node changes nothing of how its extents
    /// end.
    pub proof fn lemma_append_packed(&self, before: &Self, block: u64, cont: u64)
        requires
            before.wf(),
            before.is_node(block),
            self.model@ == node_after_append(before.model@, block as int, cont as int),
        ensures
            before.aligned(block) ==> self.aligned(block),
            before.packed(block) ==> self.packed(block),
    {
        let c = before.model@.chains[block as int];
        self.lemma_append_shape(before, block, cont);
        assert(link_ok(
            before.disk@,
            before.model@.owner,
            c,
            Owner::Link { head: block as int },
            true,
            0,
        ));
        crate::shape::lemma_packed_append(c.base, c.blocks.len() as int);
        assert(self.model@.chains[block as int].base =~= c.base + Seq::new(
            16,
            |t: int| c.base[16 * (c.blocks.len() as int)],
        ));
    }
}

} // verus!
