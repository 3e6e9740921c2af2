use vstd::prelude::*;
use crate::disk::Disk;
use crate::fs::{read_back, written, FileSystem};
use crate::model::{extent_at, link_ok, slot_ok, Chain, Owner};
use crate::node::stored_name;
use crate::span::within;

verus! {

impl<D: Disk> FileSystem<D> {
    /// Whether block `x` lies inside the extent in slot `j` of record `i`
    /// of the chain that starts at `head`: a node's, or the free list's.
    pub open spec fn in_extent(&self, head: u64, i: int, j: int, x: int) -> bool {
        let c = self.chain(head);
        let e = extent_at(self.disk@, c.blocks[i], j);
        &&& self.has_chain(head)
        &&& 0 <= i < c.blocks.len()
        &&& 0 <= j < 16
        &&& e.start <= x < e.start + e.span()
    }

    /// Whether block `x` holds record `i` of the chain that starts at
    /// `head`.
    pub open spec fn is_record(&self, head: u64, i: int, x: int) -> bool {
        let c = self.chain(head);
        &&& self.has_chain(head)
        &&& 0 <= i < c.blocks.len()
        &&& c.blocks[i] == x
    }

    /// No block serves two extents: a block that lies inside an extent of a
    /// node or of the free list lies inside no other extent, of the same
    /// chain or of another.
    pub proof fn lemma_extents_disjoint(
        &self,
        head1: u64,
        i1: int,
        j1: int,
        head2: u64,
        i2: int,
        j2: int,
        x: int,
    )
        requires
            self.wf(),
            self.in_extent(head1, i1, j1, x),
            self.in_extent(head2, i2, j2, x),
        ensures
            head1 == head2,
            i1 == i2,
            j1 == j2,
    {
        let d = self.disk@;
        let o = self.model@.owner;
        self.lemma_chain_proper(head1);
        self.lemma_chain_proper(head2);
        let c1 = self.chain(head1);
        let c2 = self.chain(head2);
        let t1 = self.tag(head1);
        let t2 = self.tag(head2);
        assert(link_ok(d, o, c1, t1, head1 != self.header.free, i1));
        assert(slot_ok(d, o, c1, head1 != self.header.free, i1, j1));
        assert(link_ok(d, o, c2, t2, head2 != self.header.free, i2));
        assert(slot_ok(d, o, c2, head2 != self.header.free, i2, j2));
        assert(o[x] == (Owner::Held { node: c1.blocks[i1], slot: j1 }));
        assert(o[x] == (Owner::Held { node: c2.blocks[i2], slot: j2 }));
        assert(o[c1.blocks[i1]] == t1);
        assert(o[c2.blocks[i2]] == t2);
    }

    /// No block is both a record and inside an extent, and no block is a
    /// record of two chains or twice of one.
    pub proof fn lemma_records_disjoint(&self, head1: u64, i1: int, head2: u64, i2: int, j2: int, x: int)
        requires
            self.wf(),
            self.is_record(head1, i1, x),
        ensures
            !self.in_extent(head2, i2, j2, x),
            self.is_record(head2, i2, x) ==> head1 == head2 && i1 == i2,
            x >= 3,
    {
        let d = self.disk@;
        let o = self.model@.owner;
        self.lemma_chain_proper(head1);
        let c1 = self.chain(head1);
        let t1 = self.tag(head1);
        assert(link_ok(d, o, c1, t1, head1 != self.header.free, i1));
        if self.has_chain(head2) {
            self.lemma_chain_proper(head2);
            let c2 = self.chain(head2);
            let t2 = self.tag(head2);
            if 0 <= i2 < c2.blocks.len() {
                assert(link_ok(d, o, c2, t2, head2 != self.header.free, i2));
                if 0 <= j2 < 16 {
                    assert(slot_ok(d, o, c2, head2 != self.header.free, i2, j2));
                }
            }
        }
    }

    /// Where no block is loose, the reserved blocks, the records and the
    /// extents of the free list, and the records and the extents of the
    /// nodes make up the whole image: every block is one of them.
    pub proof fn lemma_partition(&self, x: int)
        requires
            self.wf(),
            self.tight(),
            0 <= x < self.disk@.len(),
        ensures
            x < 3 || (exists|head: u64, i: int| self.is_record(head, i, x)) || (exists|
                head: u64,
                i: int,
                j: int,
            | self.in_extent(head, i, j, x)),
    {
        let d = self.disk@;
        let m = self.model@;
        assert(crate::model::mark_true(d, m, x));
        assert(!self.loose(x));
        match m.owner[x] {
            Owner::Held { node, slot } => {
                assert(crate::model::mark_true(d, m, node));
                let (head, t) = self.lemma_record_of(node);
                assert(self.in_extent(head, t, slot, x));
            },
            Owner::FreeLink => {
                let (head, t) = self.lemma_record_of(x);
            },
            Owner::Link { head } => {
                let (head, t) = self.lemma_record_of(x);
            },
            _ => {},
        }
    }

    /// A block that is marked as a record is a record of some chain.
    pub proof fn lemma_record_of(&self, x: int) -> (r: (u64, int))
        requires
            self.wf(),
            0 <= x < self.disk@.len(),
            self.model@.owner[x] is FreeLink || self.model@.owner[x] is Link,
        ensures
            self.is_record(r.0, r.1, x),
    {
        let d = self.disk@;
        let m = self.model@;
        assert(crate::model::mark_true(d, m, x));
        if m.owner[x] is FreeLink {
            let t = choose|t: int| 0 <= t < m.free.blocks.len() && m.free.blocks[t] == x;
            (self.header.free, t)
        } else {
            let head = m.owner[x]->head;
            crate::content::lemma_node_not_free(d, self.header, m, head);
            let c = m.chains[head];
            let t = choose|t: int| 0 <= t < c.blocks.len() && c.blocks[t] == x;
            self.lemma_len_is_data_len(head as u64);
            (head as u64, t)
        }
    }

    /// Lengthening a node takes no more blocks than its new bytes fill,
    /// and one more for a record.
    pub proof fn lemma_growth_bound(&self, block: u64, len: int)
        requires
            len > self.data(block).len(),
        ensures
            0 <= self.growth_run(block, len) <= (len - self.data(block).len() + 511) / 512 + 1,
    {
    }

    /// Where one free extent can give `extra` blocks, the blocks that the
    /// new bytes of the node at `block` fill and one block more, it can give
    /// `extra` blocks and what lengthening the node to `len` bytes takes:
    /// the free list then does not refuse.
    pub proof fn lemma_room_to_grow(&self, block: u64, len: int, extra: int)
        requires
            len > self.data(block).len(),
            self.can_give(extra + (len - self.data(block).len() + 511) / 512 + 1),
        ensures
            self.can_give(extra + self.growth_run(block, len)),
    {
        self.lemma_growth_bound(block, len);
        let most = (len - self.data(block).len() + 511) / 512 + 1;
        let run = self.growth_run(block, len);
        if !self.can_give(extra + run) {
            crate::fit::lemma_fit_less(self.disk@, self.model@.free, extra + run, most - run);
        }
    }

    /// A node that is created in a directory and then removed again leaves
    /// as many blocks free as there were. `made` is what `create_node` left
    /// of `before`, and `after` what `remove_node` left of `made`.
    pub proof fn lemma_create_then_remove(before: &Self, made: &Self, after: &Self, parent: u64, b: u64)
        requires
            before.valid(),
            before.is_node(parent),
            before.record(parent).is_dir(),
            made.kids(parent) == before.kids(parent).push(b),
            made.model@.chains[b as int] == crate::tree::empty_chain(b as int),
            made.free_blocks() + crate::shape::footprint(made.model@.chains[parent as int])
                == before.free_blocks() - 1 + crate::shape::footprint(
                before.model@.chains[parent as int],
            ),
            crate::shape::grew_from(
                made.model@.chains[parent as int],
                before.model@.chains[parent as int],
                before.data(parent).len() as int,
            ),
            after.free_blocks() == made.free_blocks() + crate::shape::footprint(
                made.model@.chains[b as int],
            ) + crate::shape::footprint(made.model@.chains[parent as int])
                - crate::shape::shrunk_footprint(
                made.model@.chains[parent as int],
                8 * (made.kids(parent).len() - 1),
            ),
        ensures
            after.free_blocks() == before.free_blocks(),
    {
        before.lemma_len_is_data_len(parent);
        assert(before.dir_ok(parent));
        let len = before.data(parent).len() as int;
        assert(8 * (made.kids(parent).len() - 1) == len);
        crate::shape::lemma_restored(
            before.model@.chains[parent as int],
            made.model@.chains[parent as int],
            len,
        );
        crate::shape::lemma_empty_footprint(made.model@.chains[b as int]);
    }

    /// A node that `create_node` entered in a directory and that
    /// `remove_node` then removed by its name leaves the directory's list
    /// and the number of free blocks as they were. `made` is what the first
    /// call left of `before`, and `after` what the second left of `made`.
    pub proof fn lemma_made_then_removed(
        before: &Self,
        made: &Self,
        after: &Self,
        mode: u32,
        name: Seq<u8>,
        parent: u64,
        uid: u32,
        gid: u32,
        ctime: u64,
        ctime_nsec: u32,
        b: u64,
        n: crate::node::Node,
        kind: u32,
    )
        requires
            before.valid(),
            before.is_node(parent),
            made.create_outcome(before, mode, name, parent, uid, gid, ctime, ctime_nsec, Ok((b, n))),
            after.remove_outcome(made, kind, name, parent, Ok(())),
        ensures
            after.free_blocks() == before.free_blocks(),
            after.kids(parent) == before.kids(parent),
            after.unnamed(parent, name),
            forall|k: u64| after.is_node(k) == before.is_node(k),
    {
        let len = before.kids(parent).len() as int;
        assert(made.named(parent, name, len));
        let i = choose|i: int|
            {
                let c = made.kids(parent)[i];
                &&& #[trigger] made.named(parent, name, i)
                &&& after.kids(parent) == crate::entry::swap_removed(made.kids(parent), i)
                &&& !after.is_node(c)
                &&& after.free_blocks() == made.free_blocks() + crate::shape::footprint(
                    made.model@.chains[c as int],
                ) + crate::shape::footprint(made.model@.chains[parent as int])
                    - crate::shape::shrunk_footprint(
                    made.model@.chains[parent as int],
                    8 * (made.kids(parent).len() - 1),
                )
                &&& forall|k: u64| after.is_node(k) <==> made.is_node(k) && k != c
            };
        assert(i == len);
        assert(made.kids(parent)[i] == b);
        lemma_add_then_remove(before.kids(parent), b);
        Self::lemma_create_then_remove(before, made, after, parent, b);
        assert forall|k: u64| after.is_node(k) == before.is_node(k) by {
            assert(made.is_node(k) <==> before.is_node(k) || k == b);
        }
    }

    /// The mark that the records of the chain at `head` carry.
    pub open spec fn tag(&self, head: u64) -> Owner {
        if head == self.header.free {
            Owner::FreeLink
        } else {
            Owner::Link { head: head as int }
        }
    }

    /// The chain that starts at `head` is a proper chain.
    pub proof fn lemma_chain_proper(&self, head: u64)
        requires
            self.wf(),
            self.has_chain(head),
        ensures
            crate::model::chain_ok(
                self.disk@,
                self.model@.owner,
                self.chain(head),
                self.tag(head),
                head != self.header.free,
            ),
    {
    }

    /// The names that the directory at `parent` lists are those that a
    /// lookup finds: a name goes by some entry if and only if some entry is
    /// the first to go by it, and otherwise no entry does.
    pub proof fn lemma_listed_iff_found(&self, parent: u64, name: Seq<u8>)
        ensures
            (exists|t: int|
                0 <= t < self.kids(parent).len() && self.record(#[trigger] self.kids(parent)[t]).name
                    == stored_name(name)) <==> (exists|i: int| self.named(parent, name, i)),
            self.unnamed(parent, name) <==> !(exists|i: int| self.named(parent, name, i)),
    {
        let kids = self.kids(parent);
        let want = stored_name(name);
        if exists|t: int| 0 <= t < kids.len() && self.record(#[trigger] kids[t]).name == want {
            let t = choose|t: int| 0 <= t < kids.len() && self.record(#[trigger] kids[t]).name == want;
            self.lemma_first_named(parent, name, t);
        }
        if exists|i: int| self.named(parent, name, i) {
            let i = choose|i: int| self.named(parent, name, i);
            assert(self.record(kids[i]).name == want);
        }
    }

    /// Where an entry goes by a name, one is the first to do so.
    pub proof fn lemma_first_named(&self, parent: u64, name: Seq<u8>, t: int)
        requires
            0 <= t < self.kids(parent).len(),
            self.record(self.kids(parent)[t]).name == stored_name(name),
        ensures
            exists|i: int| self.named(parent, name, i),
        decreases t,
    {
        let kids = self.kids(parent);
        let want = stored_name(name);
        if exists|u: int| 0 <= u < t && self.record(#[trigger] kids[u]).name == want {
            let u = choose|u: int| 0 <= u < t && self.record(#[trigger] kids[u]).name == want;
            self.lemma_first_named(parent, name, u);
        } else {
            assert(self.named(parent, name, t));
        }
    }
}

/// An entry that is added at the end of a list and then removed leaves the
/// list as it was.
pub proof fn lemma_add_then_remove(kids: Seq<u64>, b: u64)
    ensures
        crate::entry::swap_removed(kids.push(b), kids.len() as int) == kids,
{
    assert(crate::entry::swap_removed(kids.push(b), kids.len() as int) =~= kids);
}

/// What was written at the start of a file is what a read of as many bytes
/// from the start gets.
pub proof fn lemma_write_then_read(data: Seq<u8>, buf: Seq<u8>, after: Seq<u8>)
    requires
        written(data, 0, buf, after),
    ensures
        within(after.len() as int, 0, buf.len() as int) == buf.len(),
        read_back(after, 0, buf.len() as int) == buf,
        buf.len() > 0 ==> after.subrange(0, buf.len() as int) == buf,
{
    if buf.len() > 0 {
        assert(after.subrange(0, buf.len() as int) =~= buf);
    } else {
        assert(buf =~= Seq::<u8>::empty());
    }
}

/// What was written anywhere in a file is what a read of as many bytes
/// from there gets.
pub proof fn lemma_write_then_read_at(data: Seq<u8>, offset: int, buf: Seq<u8>, after: Seq<u8>)
    requires
        0 <= offset,
        written(data, offset, buf, after),
    ensures
        within(after.len() as int, offset, buf.len() as int) == buf.len(),
        buf.len() > 0 ==> after.subrange(offset, offset + buf.len()) == buf,
{
    if buf.len() > 0 {
        assert(after.subrange(offset, offset + buf.len()) =~= buf);
    }
}

} // verus!
