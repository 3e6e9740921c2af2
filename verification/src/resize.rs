use vstd::prelude::*;
use crate::content::lemma_node_not_free;
use crate::disk::Disk;
use crate::error::Error;
use crate::fs::FileSystem;
use crate::model::{chain_ok, extent_at, extent_owned, layout_ok, link_ok, slot_ok, Chain, Model, Owner};
use crate::node::{Extent, Node};
use crate::reshape::{
    cut_extent, lemma_node_cut, lemma_node_pop, marks_after_cut, marks_after_pop, node_after_cut,
    node_after_pop,
};
use crate::rewrite::lemma_base_mono;
use crate::shape::{
    cut_base, footprint, kept, lemma_kept_drop, lemma_record_all, lemma_record_cut,
    lemma_spans_same, shrunk_footprint, spans,
};

verus! {

/// The records of a chain, as a walk found them: their blocks, the number of
/// bytes before each, and the number of bytes in all.
pub struct Trail {
    pub blocks: Vec<u64>,
    pub starts: Vec<u64>,
    pub total: u64,
}

/// Whether `x` is one of the blocks that slot `j` gave up between the
/// records `was` and `now`.
pub open spec fn in_gap(was: Seq<Extent>, now: Seq<Extent>, j: int, x: int) -> bool {
    was[j].start + now[j].span() <= x < was[j].start + was[j].span()
}

/// No block was given up by two slots.
pub open spec fn gaps_apart(was: Seq<Extent>, now: Seq<Extent>) -> bool {
    forall|j1: int, j2: int, x: int|
        0 <= j1 < 16 && 0 <= j2 < 16 && j1 != j2 && #[trigger] in_gap(was, now, j1, x) ==> !#[trigger] in_gap(
            was,
            now,
            j2,
            x,
        )
}

/// The number of blocks that the first `j` slots gave up.
pub open spec fn gave_up(was: Seq<Extent>, now: Seq<Extent>, j: int) -> int
    decreases j,
{
    if j <= 0 {
        0
    } else {
        gave_up(was, now, j - 1) + (if was[j - 1].span() > now[j - 1].span() {
            was[j - 1].span() - now[j - 1].span()
        } else {
            0
        })
    }
}

/// Where the extents `now` are what a cut at `limit` leaves of the extents
/// `was`, whose bytes start at the places `pos`, the slots give up at least
/// as many whole blocks as the bytes behind the cut fill.
pub proof fn lemma_gave_up_bound(was: Seq<Extent>, now: Seq<Extent>, pos: Seq<int>, limit: int, k: int)
    requires
        0 <= k <= 16,
        was.len() == 16,
        now.len() == 16,
        pos.len() == 17,
        pos[0] <= limit,
        forall|j: int| 0 <= j < 16 ==> #[trigger] pos[j + 1] == pos[j] + was[j].length,
        forall|j: int| 0 <= j < 16 ==> #[trigger] now[j] == cut_extent(was[j], pos[j], limit),
    ensures
        gave_up(was, now, k) >= 0,
        pos[k] >= pos[0],
        pos[k] > limit ==> 512 * gave_up(was, now, k) >= pos[k] - limit - 511,
    decreases k,
{
    if k > 0 {
        lemma_gave_up_bound(was, now, pos, limit, k - 1);
        let j = k - 1;
        assert(pos[j + 1] == pos[j] + was[j].length);
        assert(now[j] == cut_extent(was[j], pos[j], limit));
    }
}

/// The last of the first `k` slots that holds an extent, or -1.
pub open spec fn last_used_slot(exts: Seq<Extent>, k: int) -> int
    decreases k,
{
    if k <= 0 {
        -1
    } else if exts[k - 1].length > 0 {
        k - 1
    } else {
        last_used_slot(exts, k - 1)
    }
}

/// The number of blocks in a row that lengthening a node by `by` bytes
/// takes, where `exts` are the extents of its last record: none where the
/// last extent has room for the bytes in its last block; else the blocks for
/// what does not fit there, and one more for a new record where the last
/// slot is taken.
pub open spec fn run_needed(exts: Seq<Extent>, by: int) -> int {
    let j = last_used_slot(exts, 16);
    let room = if j >= 0 && exts[j].length % 512 != 0 {
        512 - exts[j].length % 512
    } else {
        0
    };
    let rest = if room < by {
        by - room
    } else {
        0
    };
    if rest <= 0 {
        0
    } else {
        (rest + 511) / 512 + (if j == 15 {
            1int
        } else {
            0int
        })
    }
}

/// The slot that holds an extent and has only empty slots behind it is the
/// last one used.
pub proof fn lemma_last_used(exts: Seq<Extent>, j: int, k: int)
    requires
        0 <= j < k <= 16,
        exts[j].length > 0,
        forall|t: int| j < t < 16 ==> (#[trigger] exts[t]).length == 0,
    ensures
        last_used_slot(exts, k) == j,
    decreases k,
{
    if k - 1 > j {
        assert(exts[k - 1].length == 0);
        lemma_last_used(exts, j, k - 1);
    }
}

/// Where every slot is empty, none is used.
pub proof fn lemma_none_used(exts: Seq<Extent>, k: int)
    requires
        0 <= k <= 16,
        forall|t: int| 0 <= t < 16 ==> (#[trigger] exts[t]).length == 0,
    ensures
        last_used_slot(exts, k) == -1,
    decreases k,
{
    if k > 0 {
        assert(exts[k - 1].length == 0);
        lemma_none_used(exts, k - 1);
    }
}

/// The last slot of a record that holds an extent.
pub fn last_used(node: &Node) -> (r: Option<usize>)
    ensures
        match r {
            Some(j) => {
                &&& j < 16
                &&& node@.extents[j as int].length > 0
                &&& forall|k: int| j < k < 16 ==> (#[trigger] node@.extents[k]).length == 0
                &&& last_used_slot(node@.extents, 16) == j
            },
            None => last_used_slot(node@.extents, 16) == -1 && forall|k: int|
                0 <= k < 16 ==> (#[trigger] node@.extents[k]).length == 0,
        },
{
    let mut j: usize = 16;
    while j > 0
        invariant
            j <= 16,
            forall|k: int| j <= k < 16 ==> (#[trigger] node@.extents[k]).length == 0,
        decreases j,
    {
        if node.extents[j - 1].length > 0 {
            proof {
                lemma_last_used(node@.extents, j - 1, 16);
            }
            return Some(j - 1);
        }
        j -= 1;
    }
    proof {
        lemma_none_used(node@.extents, 16);
    }
    None
}

impl<D: Disk> FileSystem<D> {
    /// Walks the chain that starts at `block`.
    pub fn trail(&mut self, block: u64) -> (r: Result<Trail, Error>)
        requires
            old(self).disk.inv(),
        ensures
            final(self).disk.inv(),
            final(self).same_as(old(self)),
            r matches Ok(t) ==> t.blocks@.len() == t.starts@.len(),
            old(self).wf() && old(self).has_chain(block) ==> match r {
                Ok(t) => {
                    let c = old(self).chain(block);
                    &&& t.blocks@.len() == c.blocks.len()
                    &&& t.total == c.total()
                    &&& forall|i: int|
                        0 <= i < c.blocks.len() ==> #[trigger] t.blocks@[i] == c.blocks[i]
                            && t.starts@[i] == c.base[16 * i]
                },
                Err(e) => e == Error::Io && !old(self).disk.reliable() && final(self).wf(),
            },
    {
        proof {
            if self.wf() && self.is_node(block) {
                lemma_node_not_free(self.disk@, self.header, self.model@, block as int);
            }
        }
        let limit = self.disk.blocks();
        let ghost c = self.chain(block);
        let ghost known = self.wf() && self.has_chain(block);
        let ghost tag = if block == self.header.free {
            Owner::FreeLink
        } else {
            Owner::Link { head: block as int }
        };
        let ghost content = block != self.header.free;
        let mut blocks: Vec<u64> = Vec::new();
        let mut starts: Vec<u64> = Vec::new();
        let mut b = block;
        let mut total: u64 = 0;
        let mut steps: u64 = 0;
        proof {
            if known {
                assert(link_ok(self.disk@, self.model@.owner, c, tag, content, 0));
            }
        }
        while b != 0
            invariant
                self.disk.inv(),
                self.same_as(old(self)),
                limit == self.disk@.len(),
                steps <= limit,
                blocks@.len() == steps,
                starts@.len() == steps,
                known == (old(self).wf() && old(self).has_chain(block)),
                old(self).wf() && old(self).is_node(block) ==> content,
                c == old(self).chain(block),
                known ==> chain_ok(self.disk@, self.model@.owner, c, tag, content),
                known ==> steps <= c.blocks.len(),
                known && b != 0 ==> steps < c.blocks.len() && b == c.blocks[steps as int],
                known && b == 0 ==> steps == c.blocks.len(),
                known ==> total == c.base[16 * steps],
                known ==> forall|i: int|
                    0 <= i < steps ==> #[trigger] blocks@[i] == c.blocks[i] && starts@[i]
                        == c.base[16 * i],
            decreases limit - steps,
        {
            proof {
                if known {
                    crate::rewrite::lemma_chain_short(self.disk@, self.model@.owner, c, tag, content);
                    assert(link_ok(self.disk@, self.model@.owner, c, tag, content, steps as int));
                }
            }
            if steps >= limit {
                return Err(Error::Io);
            }
            let n = match self.node(b) {
                Ok((_, n)) => n,
                Err(_) => {
                    return Err(Error::Io);
                },
            };
            blocks.push(b);
            starts.push(total);
            proof {
                if known {
                    assert(link_ok(self.disk@, self.model@.owner, c, tag, content, steps as int));
                    if steps + 1 < c.blocks.len() {
                        assert(link_ok(self.disk@, self.model@.owner, c, tag, content, steps + 1));
                    }
                }
            }
            let mut j: usize = 0;
            while j < 16
                invariant
                    j <= 16,
                    self.disk.inv(),
                    self.same_as(old(self)),
                    n@ == self.record(b),
                    known == (old(self).wf() && old(self).has_chain(block)),
                    old(self).wf() && old(self).is_node(block) ==> content,
                    known ==> chain_ok(self.disk@, self.model@.owner, c, tag, content),
                    known ==> c.base.len() == 16 * c.blocks.len() + 1,
                    known ==> steps < c.blocks.len() && b == c.blocks[steps as int],
                    known ==> link_ok(self.disk@, self.model@.owner, c, tag, content, steps as int),
                    known ==> total == c.base[16 * steps + j],
                decreases 16 - j,
            {
                proof {
                    if known {
                        assert(slot_ok(
                            self.disk@,
                            self.model@.owner,
                            c,
                            content,
                            steps as int,
                            j as int,
                        ));
                    }
                }
                proof {
                    if known {
                        crate::count::lemma_total_bound(
                            self.disk@,
                            self.model@.owner,
                            c,
                            tag,
                            content,
                        );
                        lemma_base_mono(
                            self.disk@,
                            self.model@.owner,
                            c,
                            tag,
                            content,
                            16 * steps + j + 1,
                            16 * (c.blocks.len() as int),
                        );
                        assert(extent_at(self.disk@, b as int, j as int) == n@.extents[j as int]);
                    }
                }
                total = match total.checked_add(n.extents[j].length) {
                    Some(t) => t,
                    None => {
                        return Err(Error::Io);
                    },
                };
                j += 1;
            }
            b = n.next;
            steps += 1;
        }
        Ok(Trail { blocks, starts, total })
    }

    /// Returns to the free list the blocks that the slots of a record gave
    /// up between `was` and `now`.
    pub(crate) fn release(&mut self, was: &Node, now: &Node) -> (r: Result<(), Error>)
        requires
            old(self).disk.inv(),
        ensures
            final(self).disk.inv(),
            old(self).wf() && gaps_apart(was@.extents, now@.extents) && (forall|j: int, x: int|
                0 <= j < 16 && #[trigger] in_gap(was@.extents, now@.extents, j, x) ==> 3 <= x < old(self).disk@.len() && old(self).loose(x)) ==> match r {
                Ok(()) => {
                    &&& final(self).wf()
                    &&& final(self).nodes_kept(old(self))
                    &&& final(self).free_blocks() == old(self).free_blocks() + gave_up(
                        was@.extents,
                        now@.extents,
                        16,
                    )
                    &&& forall|x: int|
                        0 <= x < old(self).disk@.len() && #[trigger] old(self).loose(x) && (forall|
                            j: int,
                        |
                            0 <= j < 16 ==> !in_gap(was@.extents, now@.extents, j, x))
                            ==> final(self).loose(x) && final(self).disk@[x] == old(self).disk@[x]
                    &&& forall|x: int|
                        0 <= x < old(self).disk@.len() && #[trigger] final(self).loose(x) ==> old(self).loose(x) && (forall|j: int|
                            0 <= j < 16 ==> !in_gap(was@.extents, now@.extents, j, x))
                    &&& final(self).gives_less(old(self), 0)
                },
                Err(e) => e == Error::Io && !old(self).disk.reliable() && final(self).wf(),
            },
    {
        let ghost known = self.wf() && gaps_apart(was@.extents, now@.extents) && (forall|
            j: int,
            x: int,
        |
            0 <= j < 16 && #[trigger] in_gap(was@.extents, now@.extents, j, x) ==> 3 <= x
                < self.disk@.len() && self.loose(x));
        let mut j: usize = 0;
        proof {
            if known {
                self.lemma_gives_same(old(self));
            }
        }
        while j < 16
            invariant
                j <= 16,
                self.disk.inv(),
                old(self).disk.inv(),
                known == (old(self).wf() && gaps_apart(was@.extents, now@.extents) && (forall|
                    j: int,
                    x: int,
                |
                    0 <= j < 16 && #[trigger] in_gap(was@.extents, now@.extents, j, x) ==> 3 <= x
                        < old(self).disk@.len() && old(self).loose(x))),
                known ==> self.wf(),
                known ==> self.nodes_kept(old(self)),
                known ==> self.gives_less(old(self), 0),
                known ==> self.free_blocks() == old(self).free_blocks() + gave_up(
                    was@.extents,
                    now@.extents,
                    j as int,
                ),
                known ==> forall|t: int, x: int|
                    j <= t < 16 && #[trigger] in_gap(was@.extents, now@.extents, t, x) ==> 3 <= x
                        < self.disk@.len() && self.loose(x),
                known ==> forall|x: int|
                    0 <= x < old(self).disk@.len() && #[trigger] old(self).loose(x) && (forall|
                        t: int,
                    |
                        0 <= t < 16 ==> !in_gap(was@.extents, now@.extents, t, x)) ==> self.loose(x)
                        && self.disk@[x] == old(self).disk@[x],
                known ==> forall|x: int|
                    0 <= x < old(self).disk@.len() && #[trigger] self.loose(x) ==> old(self).loose(x)
                        && (forall|t: int|
                        0 <= t < j ==> !in_gap(was@.extents, now@.extents, t, x)),
            decreases 16 - j,
        {
            let ob = was.extents[j].blocks();
            let nb = now.extents[j].blocks();
            if nb < ob {
                let start = match was.extents[j].start.checked_add(nb) {
                    Some(s) => s,
                    None => {
                        proof {
                            if known {
                                let x = was.extents[j as int].start + nb;
                                assert(in_gap(was@.extents, now@.extents, j as int, x));
                            }
                        }
                        return Err(Error::Io);
                    },
                };
                let ghost pre = *self;
                proof {
                    if known {
                        assert forall|x: int| start <= x < start + (ob - nb) implies #[trigger] self.loose(
                            x,
                        ) && 3 <= x < self.disk@.len() by {
                            assert(in_gap(was@.extents, now@.extents, j as int, x));
                        }
                        assert(in_gap(was@.extents, now@.extents, j as int, start as int));
                        assert(in_gap(was@.extents, now@.extents, j as int, start + (ob - nb) - 1));
                        assert(self.range_loose(start, (ob - nb) as u64));
                    }
                }
                if self.deallocate(start, ob - nb).is_err() {
                    return Err(Error::Io);
                }
                proof {
                    if known {
                        self.lemma_nodes_kept_twice(&pre, old(self));
                        self.lemma_gives_less_twice(&pre, old(self), 0, 0);
                        assert forall|t: int, x: int|
                            j + 1 <= t < 16 && #[trigger] in_gap(
                                was@.extents,
                                now@.extents,
                                t,
                                x,
                            ) implies 3 <= x < self.disk@.len() && self.loose(x) by {
                            assert(!in_gap(was@.extents, now@.extents, j as int, x));
                            assert(pre.loose(x));
                        }
                        assert forall|x: int|
                            0 <= x < old(self).disk@.len() && #[trigger] old(self).loose(x) && (
                            forall|t: int| 0 <= t < 16 ==> !in_gap(was@.extents, now@.extents, t, x))
                            implies self.loose(x) && self.disk@[x] == old(self).disk@[x] by {
                            assert(!in_gap(was@.extents, now@.extents, j as int, x));
                            assert(pre.loose(x));
                        }
                    }
                }
            }
            j += 1;
        }
        Ok(())
    }
}

} // verus!

verus! {

impl<D: Disk> FileSystem<D> {
    /// Takes the last record, at `last`, off the node at `block`; `prev` is
    /// the record before it. The blocks of the record's extents and its own
    /// block return to the free list.
    pub(crate) fn pop(&mut self, block: u64, prev: u64, last: u64) -> (r: Result<(), Error>)
        requires
            old(self).disk.inv(),
        ensures
            final(self).disk.inv(),
            ({
                let c = old(self).model@.chains[block as int];
                &&& old(self).wf()
                &&& old(self).is_node(block)
                &&& c.blocks.len() >= 2
                &&& last == c.blocks[c.blocks.len() - 1]
                &&& prev == c.blocks[c.blocks.len() - 2]
            }) ==> match r {
                Ok(()) => {
                    &&& final(self).wf()
                    &&& final(self).model@.chains == node_after_pop(
                        old(self).model@,
                        block as int,
                    ).chains
                    &&& final(self).others_kept(old(self), block)
                    &&& final(self).record(block).same_meta(old(self).record(block))
                    &&& final(self).loose_same(old(self))
                    &&& 512 * (final(self).free_blocks() - old(self).free_blocks()) >= old(self).data(block).len() - final(self).data(block).len() + 1
                    &&& ({
                        let c = old(self).model@.chains[block as int];
                        let n = c.blocks.len() as int;
                        final(self).free_blocks() == old(self).free_blocks() + 1 + spans(
                            c.base,
                            16 * n,
                        ) - spans(c.base, 16 * (n - 1))
                    })
                    &&& final(self).gives_less(old(self), 0)
                },
                Err(e) => e == Error::Io && !old(self).disk.reliable() && final(self).wf(),
            },
    {
        let ghost d = self.disk@;
        let ghost m = self.model@;
        let ghost c = m.chains[block as int];
        let ghost known = self.wf() && self.is_node(block) && c.blocks.len() >= 2 && last
            == c.blocks[c.blocks.len() - 1] && prev == c.blocks[c.blocks.len() - 2];
        let ghost tag = Owner::Link { head: block as int };
        proof {
            if known {
                assert(link_ok(d, m.owner, c, tag, true, c.blocks.len() - 1));
                assert(link_ok(d, m.owner, c, tag, true, c.blocks.len() - 2));
            }
        }
        let was = match self.node(last) {
            Ok((_, n)) => n,
            Err(_) => {
                return Err(Error::Io);
            },
        };
        let mut p = match self.node(prev) {
            Ok((_, n)) => n,
            Err(_) => {
                return Err(Error::Io);
            },
        };
        p.next = 0;
        if self.store(prev, &p).is_err() {
            return Err(Error::Io);
        }
        proof {
            if known {
                lemma_node_pop(d, self.header, m, block as int, self.disk@[prev as int]);
                lemma_node_not_free(d, self.header, m, block as int);
            }
        }
        self.model = Ghost(node_after_pop(m, block as int));
        let ghost mid = *self;
        let blank = Node::blank();
        proof {
            if known {
                let i = c.blocks.len() - 1;
                assert(link_ok(d, m.owner, c, tag, true, i));
                assert(link_ok(d, m.owner, c, tag, true, i - 1));
                assert forall|j: int, x: int|
                    0 <= j < 16 && #[trigger] in_gap(was@.extents, blank@.extents, j, x) implies 3
                    <= x < self.disk@.len() && self.loose(x) && m.owner[x] == (Owner::Held {
                    node: last as int,
                    slot: j,
                }) by {
                    assert(blank@.extents[j].length == 0);
                    assert(extent_owned(m.owner, d.len() as int, last as int, j, extent_at(d, last as int, j)));
                }
                assert(gaps_apart(was@.extents, blank@.extents));
                assert(mid.model@.chains.dom() =~= m.chains.dom());
                mid.lemma_gives_same(old(self));
            }
        }
        if self.release(&was, &blank).is_err() {
            return Err(Error::Io);
        }
        let ghost mid2 = *self;
        proof {
            if known {
                let i = c.blocks.len() - 1;
                let pos = Seq::new(17, |t: int| c.base[16 * i + t]);
                assert forall|j: int| 0 <= j < 16 implies #[trigger] pos[j + 1] == pos[j]
                    + was@.extents[j].length by {
                    assert(slot_ok(d, m.owner, c, true, i, j));
                }
                assert forall|j: int| 0 <= j < 16 implies #[trigger] blank@.extents[j] == cut_extent(
                    was@.extents[j],
                    pos[j],
                    pos[0],
                ) by {
                    assert(slot_ok(d, m.owner, c, true, i, j));
                    lemma_base_mono(d, m.owner, c, tag, true, 16 * i, 16 * i + j);
                }
                lemma_gave_up_bound(was@.extents, blank@.extents, pos, pos[0], 16);
                assert(mid.free_blocks() == old(self).free_blocks());
                assert forall|j: int| 0 <= j < 16 implies #[trigger] c.base[16 * i + j + 1]
                    == c.base[16 * i + j] + was@.extents[j].length by {
                    assert(slot_ok(d, m.owner, c, true, i, j));
                }
                lemma_record_all(was@.extents, blank@.extents, c.base, 16 * i, 16);
            }
        }
        proof {
            if known {
                assert(mid.loose(last as int));
                assert forall|j: int| 0 <= j < 16 implies !in_gap(
                    was@.extents,
                    blank@.extents,
                    j,
                    last as int,
                ) by {
                    if in_gap(was@.extents, blank@.extents, j, last as int) {
                        assert(m.owner[last as int] == (Owner::Held { node: last as int, slot: j }));
                    }
                }
                assert(self.loose(last as int));
                assert(self.range_loose(last, 1));
            }
        }
        if self.deallocate(last, 1).is_err() {
            return Err(Error::Io);
        }
        proof {
            if known {
                self.lemma_nodes_kept_twice(&mid2, &mid);
                mid2.lemma_gives_less_twice(&mid, old(self), 0, 0);
                self.lemma_gives_less_twice(&mid2, old(self), 0, 0);
                assert forall|k: int| m.chains.contains_key(k) && k != block implies #[trigger] self.model@.chains[k]
                    == m.chains[k] && self.disk@[k] == d[k] by {
                    lemma_node_not_free(d, old(self).header, m, k);
                    assert(mid.node_side(k));
                }
                assert(mid.node_side(block as int));
                assert forall|x: int| 0 <= x < d.len() implies #[trigger] self.loose(x) == old(self).loose(x) by {
                    assert(crate::model::mark_true(d, m, x));
                    if old(self).loose(x) {
                        assert(mid.loose(x));
                        assert(forall|j: int|
                            0 <= j < 16 ==> !in_gap(was@.extents, blank@.extents, j, x));
                        assert(mid2.loose(x));
                    }
                    if self.loose(x) {
                        assert(mid2.loose(x));
                        assert(mid.loose(x));
                        if m.owner[x] is Held {
                            let slot = m.owner[x]->slot;
                            assert(in_gap(was@.extents, blank@.extents, slot, x));
                        }
                    }
                }
            }
        }
        Ok(())
    }

    /// Cuts the extents of the last record, at `last`, of the node at
    /// `block`, so that the node holds `limit` bytes; `start` bytes stand
    /// before that record. The blocks that the extents give up return to the
    /// free list.
    pub(crate) fn cut(&mut self, block: u64, last: u64, start: u64, limit: u64) -> (r: Result<
        (),
        Error,
    >)
        requires
            old(self).disk.inv(),
        ensures
            final(self).disk.inv(),
            ({
                let c = old(self).model@.chains[block as int];
                &&& old(self).wf()
                &&& old(self).is_node(block)
                &&& last == c.blocks[c.blocks.len() - 1]
                &&& start == c.base[16 * (c.blocks.len() - 1)]
                &&& start <= limit <= c.total()
            }) ==> match r {
                Ok(()) => {
                    &&& final(self).wf()
                    &&& final(self).model@.chains == node_after_cut(
                        old(self).disk@,
                        old(self).model@,
                        block as int,
                        limit as int,
                    ).chains
                    &&& final(self).others_kept(old(self), block)
                    &&& final(self).record(block).same_meta(old(self).record(block))
                    &&& final(self).loose_same(old(self))
                    &&& 512 * (final(self).free_blocks() - old(self).free_blocks()) >= old(self).data(block).len() - limit - 511
                    &&& final(self).free_blocks() >= old(self).free_blocks()
                    &&& ({
                        let c = old(self).model@.chains[block as int];
                        let n = c.blocks.len() as int;
                        final(self).free_blocks() == old(self).free_blocks() + spans(c.base, 16 * n)
                            - spans(cut_base(c.base, n, limit as int), 16 * n)
                    })
                    &&& final(self).gives_less(old(self), 0)
                },
                Err(e) => e == Error::Io && !old(self).disk.reliable() && final(self).wf(),
            },
    {
        let ghost d = self.disk@;
        let ghost m = self.model@;
        let ghost c = m.chains[block as int];
        let ghost i = c.blocks.len() - 1;
        let ghost known = self.wf() && self.is_node(block) && last == c.blocks[i] && start
            == c.base[16 * i] && start <= limit <= c.total();
        let ghost tag = Owner::Link { head: block as int };
        proof {
            if known {
                assert(link_ok(d, m.owner, c, tag, true, i));
            }
        }
        let was = match self.node(last) {
            Ok((_, n)) => n,
            Err(_) => {
                return Err(Error::Io);
            },
        };
        let mut now = was.clone();
        let mut pos = start;
        let mut j: usize = 0;
        proof {
            if known {
                assert(link_ok(d, m.owner, c, tag, true, i));
            }
        }
        while j < 16
            invariant
                j <= 16,
                self.disk.inv(),
                self.same_as(old(self)),
                was.wf(),
                now.wf(),
                now@.same_meta(was@),
                now@.next == was@.next,
                was@ == old(self).record(last),
                d == old(self).disk@,
                m == old(self).model@,
                c == m.chains[block as int],
                i == c.blocks.len() - 1,
                known ==> link_ok(d, m.owner, c, tag, true, i),
                known ==> chain_ok(d, m.owner, c, tag, true),
                tag == (Owner::Link { head: block as int }),
                known ==> pos == c.base[16 * i + j],
                forall|t: int|
                    0 <= t < j ==> #[trigger] now@.extents[t] == cut_extent(
                        was@.extents[t],
                        if known {
                            c.base[16 * i + t]
                        } else {
                            0
                        },
                        limit as int,
                    ) || !known,
                known == ({
                    let c = old(self).model@.chains[block as int];
                    &&& old(self).wf()
                    &&& old(self).is_node(block)
                    &&& last == c.blocks[c.blocks.len() - 1]
                    &&& start == c.base[16 * (c.blocks.len() - 1)]
                    &&& start <= limit <= c.total()
                }),
            decreases 16 - j,
        {
            let e = was.extents[j];
            let cutting = if pos >= limit || e.length == 0 {
                Extent { start: 0, length: 0 }
            } else if e.length > limit - pos {
                Extent { start: e.start, length: limit - pos }
            } else {
                e
            };
            proof {
                if known {
                    assert(slot_ok(d, m.owner, c, true, i, j as int));
                }
            }
            let ghost before = now@;
            now.extents[j] = cutting;
            proof {
                if known {
                    lemma_base_mono(d, m.owner, c, tag, true, 16 * i + j + 1, 16 * (c.blocks.len() as int));
                    assert(extent_at(d, last as int, j as int) == e);
                }
            }
            pos = match pos.checked_add(e.length) {
                Some(v) => v,
                None => {
                    return Err(Error::Io);
                },
            };
            proof {
                assert forall|t: int| 0 <= t < j + 1 implies #[trigger] now@.extents[t] == cut_extent(
                    was@.extents[t],
                    if known {
                        c.base[16 * i + t]
                    } else {
                        0
                    },
                    limit as int,
                ) || !known by {
                    if t < j {
                        assert(now@.extents[t] == before.extents[t]);
                    }
                }
            }
            j += 1;
        }
        if self.store(last, &now).is_err() {
            return Err(Error::Io);
        }
        proof {
            if known {
                assert forall|t: int| 0 <= t < 16 implies #[trigger] crate::node::decode_node(
                    self.disk@[last as int],
                ).extents[t] == cut_extent(
                    extent_at(d, c.blocks.last(), t),
                    c.base[16 * i + t],
                    limit as int,
                ) by {
                    assert(now@.extents[t] == cut_extent(
                        was@.extents[t],
                        c.base[16 * i + t],
                        limit as int,
                    ));
                }
                lemma_node_cut(d, self.header, m, block as int, limit as int, self.disk@[last as int]);
                lemma_node_not_free(d, self.header, m, block as int);
            }
        }
        self.model = Ghost(node_after_cut(d, m, block as int, limit as int));
        let ghost mid = *self;
        proof {
            if known {
                assert forall|t: int, x: int|
                    0 <= t < 16 && #[trigger] in_gap(was@.extents, now@.extents, t, x) implies 3 <= x
                    < self.disk@.len() && self.loose(x) && m.owner[x] == (Owner::Held {
                    node: last as int,
                    slot: t,
                }) by {
                    assert(extent_owned(m.owner, d.len() as int, last as int, t, extent_at(d, last as int, t)));
                    assert(now@.extents[t] == cut_extent(
                        was@.extents[t],
                        c.base[16 * i + t],
                        limit as int,
                    ));
                }
                assert(gaps_apart(was@.extents, now@.extents));
                assert(mid.model@.chains.dom() =~= m.chains.dom());
                mid.lemma_gives_same(old(self));
            }
        }
        if self.release(&was, &now).is_err() {
            return Err(Error::Io);
        }
        proof {
            if known {
                let pos = Seq::new(17, |t: int| c.base[16 * i + t]);
                assert forall|j: int| 0 <= j < 16 implies #[trigger] pos[j + 1] == pos[j]
                    + was@.extents[j].length by {
                    assert(slot_ok(d, m.owner, c, true, i, j));
                }
                assert forall|j: int| 0 <= j < 16 implies #[trigger] now@.extents[j] == cut_extent(
                    was@.extents[j],
                    pos[j],
                    limit as int,
                ) by {
                    assert(now@.extents[j] == cut_extent(
                        was@.extents[j],
                        c.base[16 * i + j],
                        limit as int,
                    ));
                }
                lemma_gave_up_bound(was@.extents, now@.extents, pos, limit as int, 16);
                assert(mid.free_blocks() == old(self).free_blocks());
                self.lemma_gives_less_twice(&mid, old(self), 0, 0);
                let after = cut_base(c.base, i + 1, limit as int);
                assert forall|j: int| 0 <= j < 16 implies #[trigger] c.base[16 * i + j + 1]
                    == c.base[16 * i + j] + was@.extents[j].length by {
                    assert(slot_ok(d, m.owner, c, true, i, j));
                }
                assert forall|j: int| 0 <= j < 16 implies #[trigger] now@.extents[j] == cut_extent(
                    was@.extents[j],
                    c.base[16 * i + j],
                    limit as int,
                ) by {}
                lemma_record_cut(was@.extents, now@.extents, c.base, after, 16 * i, limit as int, 16);
                assert forall|t: int| 0 <= t <= 16 * i implies c.base[t] == after[t] by {
                    lemma_base_mono(d, m.owner, c, tag, true, t, 16 * i);
                }
                lemma_spans_same(c.base, after, 16 * i);
                assert forall|k: int| m.chains.contains_key(k) && k != block implies #[trigger] self.model@.chains[k]
                    == m.chains[k] && self.disk@[k] == d[k] by {
                    lemma_node_not_free(d, old(self).header, m, k);
                    assert(mid.node_side(k));
                }
                assert(mid.node_side(block as int));
                assert forall|x: int| 0 <= x < d.len() implies #[trigger] self.loose(x) == old(self).loose(x) by {
                    assert(crate::model::mark_true(d, m, x));
                    if old(self).loose(x) {
                        assert(mid.loose(x));
                        assert(forall|j: int| 0 <= j < 16 ==> !in_gap(was@.extents, now@.extents, j, x));
                    }
                    if self.loose(x) {
                        assert(mid.loose(x));
                        if m.owner[x] is Held && !old(self).loose(x) {
                            let slot = m.owner[x]->slot;
                            assert(now@.extents[slot] == cut_extent(
                                was@.extents[slot],
                                c.base[16 * i + slot],
                                limit as int,
                            ));
                            assert(in_gap(was@.extents, now@.extents, slot, x));
                        }
                    }
                }
            }
        }
        Ok(())
    }
}

} // verus!

verus! {

impl<D: Disk> FileSystem<D> {
    /// What `shrink` asks for: `trail` is the walk of the node at `block`,
    /// which holds at least `limit` bytes.
    pub open spec fn can_shrink(&self, block: u64, trail: Trail, limit: u64) -> bool {
        let c = self.model@.chains[block as int];
        &&& self.wf()
        &&& self.is_node(block)
        &&& trail.blocks@.len() == c.blocks.len()
        &&& forall|i: int|
            0 <= i < c.blocks.len() ==> #[trigger] trail.blocks@[i] == c.blocks[i]
                && trail.starts@[i] == c.base[16 * i]
        &&& limit <= c.total()
    }

    /// Shortens the node at `block`, whose records are those of `trail`, to
    /// `limit` bytes: records that lie wholly behind the limit leave the
    /// node, from the last one back, and the record that the limit falls in
    /// is cut.
    pub(crate) fn shrink(&mut self, block: u64, trail: &Trail, limit: u64) -> (r: Result<(), Error>)
        requires
            old(self).disk.inv(),
            trail.blocks@.len() == trail.starts@.len(),
            trail.blocks@.len() >= 1,
        ensures
            final(self).disk.inv(),
            old(self).can_shrink(block, *trail, limit) ==> match r {
                Ok(()) => {
                    &&& final(self).wf()
                    &&& final(self).is_node(block)
                    &&& final(self).data(block) == old(self).data(block).take(limit as int)
                    &&& final(self).others_kept(old(self), block)
                    &&& final(self).record(block).same_meta(old(self).record(block))
                    &&& limit == 0 ==> final(self).model@.chains[block as int].blocks.len() == 1
                    &&& final(self).loose_same(old(self))
                    &&& final(self).free_blocks() >= old(self).free_blocks() + (old(self).data(
                        block,
                    ).len() - limit) / 512
                    &&& final(self).free_blocks() + footprint(final(self).model@.chains[block as int])
                        == old(self).free_blocks() + footprint(old(self).model@.chains[block as int])
                    &&& footprint(final(self).model@.chains[block as int]) == shrunk_footprint(
                        old(self).model@.chains[block as int],
                        limit as int,
                    )
                    &&& final(self).neat(block)
                    &&& crate::shape::packed(old(self).model@.chains[block as int])
                        ==> crate::shape::packed(final(self).model@.chains[block as int])
                    &&& final(self).gives_less(old(self), 0)
                },
                Err(e) => e == Error::Io && !old(self).disk.reliable() && final(self).wf(),
            },
    {
        let ghost c0 = self.model@.chains[block as int];
        let ghost known = self.can_shrink(block, *trail, limit);
        let ghost tag = Owner::Link { head: block as int };
        let mut i: usize = trail.blocks.len() - 1;
        proof {
            if known {
                assert(self.model@.chains.dom() =~= old(self).model@.chains.dom());
                assert(c0.blocks.take(i + 1) =~= c0.blocks);
                assert(c0.base.take(16 * (i + 1) + 1) =~= c0.base);
                assert(c0.data.take(c0.base[16 * (i + 1)]) =~= c0.data);
                self.lemma_gives_same(old(self));
            }
        }
        while i > 0 && trail.starts[i] >= limit
            invariant
                i < trail.blocks@.len(),
                trail.blocks@.len() == trail.starts@.len(),
                self.disk.inv(),
                old(self).disk.inv(),
                c0 == old(self).model@.chains[block as int],
                tag == (Owner::Link { head: block as int }),
                known == old(self).can_shrink(block, *trail, limit),
                known ==> self.wf() && self.is_node(block),
                known ==> self.model@.chains[block as int] == (Chain {
                    blocks: c0.blocks.take(i + 1),
                    base: c0.base.take(16 * (i + 1) + 1),
                    data: c0.data.take(c0.base[16 * (i + 1)]),
                }),
                known ==> limit <= c0.base[16 * (i + 1)] <= c0.data.len(),
                known ==> self.others_kept(old(self), block),
                known ==> self.record(block).same_meta(old(self).record(block)),
                known ==> self.loose_same(old(self)),
                known ==> self.gives_less(old(self), 0),
                known ==> 512 * (self.free_blocks() - old(self).free_blocks()) >= c0.data.len()
                    - self.data(block).len(),
                known ==> self.free_blocks() == old(self).free_blocks() + (c0.blocks.len() - (i + 1))
                    + spans(c0.base, 16 * (c0.blocks.len() as int)) - spans(c0.base, 16 * (i + 1)),
                known ==> kept(c0.base, c0.blocks.len() as int, limit as int) == kept(
                    c0.base,
                    i + 1,
                    limit as int,
                ),
            decreases i,
        {
            let ghost pre = *self;
            proof {
                if known {
                    assert(trail.blocks@[i as int] == c0.blocks[i as int]);
                    assert(trail.blocks@[i - 1] == c0.blocks[i - 1]);
                    lemma_base_mono(
                        old(self).disk@,
                        old(self).model@.owner,
                        c0,
                        tag,
                        true,
                        16 * i,
                        16 * (i + 1),
                    );
                    lemma_base_mono(old(self).disk@, old(self).model@.owner, c0, tag, true, 0, 16 * i);
                }
            }
            proof {
                if known {
                    let cur = self.model@.chains[block as int];
                    assert(cur.blocks.len() == i + 1);
                    assert(cur.blocks[i as int] == c0.blocks[i as int]);
                    assert(cur.blocks[i - 1] == c0.blocks[i - 1]);
                    assert(self.wf() && self.is_node(block));
                    assert(self.disk.reliable() == old(self).disk.reliable());
                    assert(trail.blocks@[i as int] == cur.blocks[cur.blocks.len() - 1]);
                    assert(trail.blocks@[i - 1] == cur.blocks[cur.blocks.len() - 2]);
                }
            }
            match self.pop(block, trail.blocks[i - 1], trail.blocks[i]) {
                Ok(()) => {},
                Err(_) => {
                    return Err(Error::Io);
                },
            }
            proof {
                if known {
                    let c1 = pre.model@.chains[block as int];
                    let c2 = self.model@.chains[block as int];
                    self.lemma_gives_less_twice(&pre, old(self), 0, 0);
                    assert(c2.blocks =~= c0.blocks.take(i as int));
                    assert(c2.base =~= c0.base.take(16 * i + 1));
                    assert(c2.data =~= c0.data.take(c0.base[16 * i]));
                    lemma_spans_same(c1.base, c0.base, 16 * (i + 1));
                    lemma_spans_same(c1.base, c0.base, 16 * i);
                    lemma_kept_drop(c0.base, i + 1, limit as int);
                    assert(self.model@.chains.dom() =~= old(self).model@.chains.dom());
                    assert(self.model@.chains.contains_key(block as int));
                    assert(trail.starts@[i as int] == c0.base[16 * i]);
                }
            }
            i -= 1;
        }
        let ghost pre = *self;
        proof {
            if known {
                assert(trail.blocks@[i as int] == c0.blocks[i as int]);
                assert(trail.starts@[i as int] == c0.base[16 * i]);
            }
        }
        proof {
            if known {
                let cur = self.model@.chains[block as int];
                assert(cur.blocks.len() == i + 1);
                assert(cur.blocks[i as int] == c0.blocks[i as int]);
                assert(cur.base[16 * i] == c0.base[16 * i]);
                assert(cur.total() == c0.base[16 * (i + 1)]);
                if i > 0 {
                } else {
                    assert(c0.base[0] == 0);
                }
            }
        }
        if self.cut(block, trail.blocks[i], trail.starts[i], limit).is_err() {
            return Err(Error::Io);
        }
        proof {
            if known {
                assert(self.model@.chains.dom() =~= old(self).model@.chains.dom());
                assert(self.data(block) =~= c0.data.take(limit as int));
                self.lemma_gives_less_twice(&pre, old(self), 0, 0);
                let c1 = pre.model@.chains[block as int];
                let cf = self.model@.chains[block as int];
                lemma_spans_same(c1.base, c0.base, 16 * (i + 1));
                assert(cut_base(c1.base, i + 1, limit as int) =~= cut_base(
                    c0.base,
                    i + 1,
                    limit as int,
                ));
                assert(cf.base =~= cut_base(c0.base, i + 1, limit as int));
                assert(cf.blocks.len() == i + 1);
                if crate::shape::packed(c0) {
                    assert forall|t1: int, t2: int|
                        0 <= t1 <= t2 <= 16 * c0.blocks.len() implies #[trigger] c0.base[t1]
                        <= #[trigger] c0.base[t2] by {
                        lemma_base_mono(
                            old(self).disk@,
                            old(self).model@.owner,
                            c0,
                            tag,
                            true,
                            t1,
                            t2,
                        );
                    }
                    crate::shape::lemma_packed_cut(
                        c0.base,
                        c0.blocks.len() as int,
                        i + 1,
                        limit as int,
                    );
                }
                assert(kept(c0.base, i + 1, limit as int) == i + 1);
            }
        }
        Ok(())
    }
}

} // verus!
