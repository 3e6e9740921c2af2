use vstd::prelude::*;
use vstd::bytes::{spec_u64_to_le_bytes, u64_to_le_bytes};
use crate::content::lemma_node_not_free;
use crate::disk::Disk;
use crate::error::Error;
use crate::flag::MODE_TYPE;
use crate::fs::{pointers, written, FileSystem};
use crate::model::{layout_ok, link_ok, Model, Owner};
use crate::node::{stored_name, Extent, Node, NodeView};
use crate::tree::{
    lemma_disown, lemma_pointers_push, lemma_pointers_take, lemma_pointers_update,
    model_after_adopt, model_after_disown,
};

verus! {

/// The list `kids` without entry `i`: the last entry takes its place.
pub open spec fn swap_removed(kids: Seq<u64>, i: int) -> Seq<u64> {
    kids.update(i, kids.last()).take(kids.len() - 1)
}

/// A list without repeats stays one when the last entry takes the place of
/// another; what left is no longer in it, and the rest is.
pub proof fn lemma_swap_removed(kids: Seq<u64>, i: int)
    requires
        kids.no_duplicates(),
        0 <= i < kids.len(),
    ensures
        swap_removed(kids, i).no_duplicates(),
        !swap_removed(kids, i).contains(kids[i]),
        forall|t: int|
            0 <= t < swap_removed(kids, i).len() ==> kids.contains(#[trigger] swap_removed(kids, i)[t]),
{
    let r = swap_removed(kids, i);
    let n = kids.len() as int;
    assert forall|a: int, b: int| 0 <= a < r.len() && 0 <= b < r.len() && a != b implies r[a]
        != r[b] by {
        let a0 = if a == i {
            n - 1
        } else {
            a
        };
        let b0 = if b == i {
            n - 1
        } else {
            b
        };
        assert(r[a] == kids[a0] && r[b] == kids[b0]);
    }
    assert forall|t: int| 0 <= t < r.len() implies kids.contains(#[trigger] r[t]) && r[t]
        != kids[i] by {
        let t0 = if t == i {
            n - 1
        } else {
            t
        };
        assert(r[t] == kids[t0]);
    }
}

impl<D: Disk> FileSystem<D> {
    /// Every node of `before` is a node of `self`, with the same record and
    /// the same bytes, but for those at `a` and `b`.
    pub open spec fn rest_kept(&self, before: &Self, a: u64, b: u64) -> bool {
        &&& self.header.root == before.header.root
        &&& self.header.size == before.header.size
        &&& self.disk@.len() == before.disk@.len()
        &&& self.disk.reliable() == before.disk.reliable()
        &&& forall|k: u64| #[trigger]
            before.is_node(k) && k != a && k != b ==> self.is_node(k) && self.model@.chains[k as int]
                == before.model@.chains[k as int] && self.record(k) == before.record(k)
    }

    /// Where the nodes are kept, the tree is.
    pub proof fn lemma_tree_from_nodes_kept(&self, before: &Self)
        requires
            before.valid(),
            self.nodes_kept(before),
        ensures
            self.tree_ok(),
            self.rest_kept(before, 0, 0),
            forall|k: u64| self.is_node(k) == before.is_node(k),
    {
        assert forall|k: u64| #[trigger] self.is_node(k) implies self.neat(k) && self.packed(k) by {
            assert(before.is_node(k));
        }
        assert forall|k: u64| #[trigger] before.is_node(k) implies self.record(k) == before.record(k) by {
            lemma_node_not_free(before.disk@, before.header, before.model@, k as int);
            assert(before.node_side(k as int));
        }
        lemma_node_not_free(
            before.disk@,
            before.header,
            before.model@,
            before.header.root as int,
        );
        assert(before.is_node(before.header.root));
        assert forall|k: u64| #[trigger] self.is_node(k) && self.record(k).is_dir() implies self.dir_ok(
            k,
        ) by {
            assert(before.is_node(k));
            assert(before.dir_ok(k));
            assert forall|i: int| 0 <= i < self.kids(k).len() implies self.is_node(
                #[trigger] self.kids(k)[i],
            ) && self.record(self.kids(k)[i]).parent == k && self.kids(k)[i] != k by {
                assert(before.is_node(before.kids(k)[i]));
            }
        }
    }

    /// The tree stays proper when one node changes, keeps its kind and its
    /// parent, and, if it is a directory, lists its children properly.
    pub proof fn lemma_tree_kept(&self, before: &Self, block: u64)
        requires
            before.valid(),
            before.is_node(block),
            self.is_node(block),
            self.others_kept(before, block),
            self.record(block).mode == before.record(block).mode,
            self.record(block).parent == before.record(block).parent,
            self.record(block).name == before.record(block).name,
            self.record(block).is_dir() ==> self.dir_ok(block),
            self.neat(block),
            self.packed(block),
        ensures
            self.tree_ok(),
            self.rest_kept(before, block, block),
    {
        assert forall|k: u64| #[trigger] self.is_node(k) implies self.neat(k) && self.packed(k) by {
            if k != block {
                assert(self.model@.chains.dom().contains(k as int));
                assert(before.model@.chains.dom().contains(k as int));
                assert(before.is_node(k));
                assert(self.model@.chains[k as int] == before.model@.chains[k as int]);
            }
        }
        assert forall|k: u64| #[trigger] before.is_node(k) && k != block implies self.is_node(k)
            && self.model@.chains[k as int] == before.model@.chains[k as int] && self.record(k)
            == before.record(k) by {
            assert(before.model@.chains.contains_key(k as int));
            assert(self.model@.chains.dom().contains(k as int));
            assert(self.model@.chains[k as int] == before.model@.chains[k as int]);
            assert(self.disk@[k as int] == before.disk@[k as int]);
        }
        assert(before.is_node(before.header.root));
        assert forall|k: u64| #[trigger] self.is_node(k) && self.record(k).is_dir() implies self.dir_ok(
            k,
        ) by {
            if k != block {
                assert(before.model@.chains.dom().contains(k as int));
                assert(before.is_node(k));
                assert(before.dir_ok(k));
                assert forall|i: int| 0 <= i < self.kids(k).len() implies self.is_node(
                    #[trigger] self.kids(k)[i],
                ) && self.record(self.kids(k)[i]).parent == k && self.kids(k)[i] != k by {
                    let c = before.kids(k)[i];
                    assert(before.is_node(c));
                }
                assert forall|i: int, j: int| 0 <= i < j < self.kids(k).len() implies self.record(
                    #[trigger] self.kids(k)[i],
                ).name != self.record(#[trigger] self.kids(k)[j]).name by {
                    assert(before.is_node(before.kids(k)[i]));
                    assert(before.is_node(before.kids(k)[j]));
                    assert(before.record(before.kids(k)[i]).name != before.record(
                        before.kids(k)[j],
                    ).name);
                }
            }
        }
    }

    /// The tree stays proper when a block that was no node becomes a node
    /// that holds nothing.
    pub proof fn lemma_tree_adopt(&self, before: &Self, b: u64)
        requires
            before.valid(),
            !before.is_node(b),
            3 <= b < before.disk@.len(),
            self.model@ == model_after_adopt(before.model@, b as int),
            self.disk@ == before.disk@.update(b as int, self.disk@[b as int]),
            self.header == before.header,
            self.disk.reliable() == before.disk.reliable(),
        ensures
            self.tree_ok(),
            self.is_node(b),
            self.data(b).len() == 0,
            self.rest_kept(before, 0, 0),
            forall|k: u64| self.is_node(k) <==> before.is_node(k) || k == b,
    {
        assert forall|k: u64| #[trigger] self.is_node(k) implies self.neat(k) && self.packed(k) by {
            if k != b {
                assert(before.is_node(k));
            } else {
                let c = self.model@.chains[b as int];
                assert forall|t: int| 0 <= t < 16 && #[trigger] crate::shape::slot_len(c.base, t)
                    % 512 != 0 implies c.base[t + 1] == c.base[16] by {}
            }
        }
        assert forall|k: u64| #[trigger] before.is_node(k) implies self.is_node(k)
            && self.model@.chains[k as int] == before.model@.chains[k as int] && self.record(k)
            == before.record(k) by {
            lemma_node_not_free(before.disk@, before.header, before.model@, k as int);
        }
        assert(before.is_node(before.header.root));
        assert(pointers(self.data(b)) =~= Seq::<u64>::empty());
        assert forall|k: u64| #[trigger] self.is_node(k) && self.record(k).is_dir() implies self.dir_ok(
            k,
        ) by {
            if k != b {
                assert(before.is_node(k));
                assert(before.dir_ok(k));
                assert forall|i: int| 0 <= i < self.kids(k).len() implies self.is_node(
                    #[trigger] self.kids(k)[i],
                ) && self.record(self.kids(k)[i]).parent == k && self.kids(k)[i] != k by {
                    let c = before.kids(k)[i];
                    assert(before.is_node(c));
                }
            }
        }
    }

    /// The tree stays proper when an entry leaves a directory and its node,
    /// which lists nothing, ceases to be one.
    pub proof fn lemma_tree_removed(&self, before: &Self, parent: u64, b: u64, i: int)
        requires
            before.valid(),
            before.is_node(parent),
            before.record(parent).is_dir(),
            0 <= i < before.kids(parent).len(),
            b == before.kids(parent)[i],
            before.record(b).is_dir() ==> before.kids(b).len() == 0,
            self.rest_kept(before, parent, b),
            self.is_node(parent),
            forall|k: u64| self.is_node(k) ==> before.is_node(k) && k != b,
            self.data(parent).len() % 8 == 0,
            self.kids(parent) == swap_removed(before.kids(parent), i),
            self.record(parent).mode == before.record(parent).mode,
            self.record(parent).parent == before.record(parent).parent,
            self.record(parent).name == before.record(parent).name,
            self.neat(parent),
            self.packed(parent),
        ensures
            self.tree_ok(),
    {
        assert forall|k: u64| #[trigger] self.is_node(k) implies self.neat(k) && self.packed(k) by {
            assert(before.is_node(k));
        }
        let kids = before.kids(parent);
        assert(before.dir_ok(parent));
        assert(before.is_node(b));
        assert(b != parent);
        lemma_swap_removed(kids, i);
        assert(before.is_node(before.header.root));
        assert(before.record(b).parent == parent);
        lemma_node_not_free(before.disk@, before.header, before.model@, parent as int);
        assert(before.header.root != b);
        assert forall|k: u64| #[trigger] self.is_node(k) && self.record(k).is_dir() implies self.dir_ok(
            k,
        ) by {
            assert(before.is_node(k));
            if k == parent {
                assert forall|t: int| 0 <= t < self.kids(k).len() implies self.is_node(
                    #[trigger] self.kids(k)[t],
                ) && self.record(self.kids(k)[t]).parent == k && self.kids(k)[t] != k by {
                    let c = self.kids(k)[t];
                    assert(kids.contains(c));
                    let t0 = choose|t0: int| 0 <= t0 < kids.len() && kids[t0] == c;
                    assert(before.is_node(kids[t0]));
                    assert(c != b);
                }
                assert forall|t: int, u: int| 0 <= t < u < self.kids(k).len() implies self.record(
                    #[trigger] self.kids(k)[t],
                ).name != self.record(#[trigger] self.kids(k)[u]).name by {
                    let n = kids.len() as int;
                    let t0 = if t == i {
                        n - 1
                    } else {
                        t
                    };
                    let u0 = if u == i {
                        n - 1
                    } else {
                        u
                    };
                    assert(self.kids(k)[t] == kids[t0] && self.kids(k)[u] == kids[u0]);
                    assert(before.is_node(kids[t0]) && before.is_node(kids[u0]));
                    assert(kids[t0] != b && kids[u0] != b);
                    if t0 < u0 {
                        assert(before.record(kids[t0]).name != before.record(kids[u0]).name);
                    } else {
                        assert(before.record(kids[u0]).name != before.record(kids[t0]).name);
                    }
                }
            } else {
                assert(before.dir_ok(k));
                assert forall|t: int, u: int| 0 <= t < u < self.kids(k).len() implies self.record(
                    #[trigger] self.kids(k)[t],
                ).name != self.record(#[trigger] self.kids(k)[u]).name by {
                    let ks = before.kids(k);
                    assert(before.is_node(ks[t]) && before.is_node(ks[u]));
                    assert(before.record(ks[t]).parent == k && before.record(ks[u]).parent == k);
                    assert(ks[t] != b && ks[u] != b);
                    assert(before.record(ks[t]).name != before.record(ks[u]).name);
                }
                assert forall|t: int| 0 <= t < self.kids(k).len() implies self.is_node(
                    #[trigger] self.kids(k)[t],
                ) && self.record(self.kids(k)[t]).parent == k && self.kids(k)[t] != k by {
                    let c = before.kids(k)[t];
                    assert(before.is_node(c));
                    assert(before.record(c).parent == k);
                    assert(c != b);
                }
            }
        }
    }
}

} // verus!

verus! {

impl<D: Disk> FileSystem<D> {
    /// Where nothing differs, what is proper stays proper.
    pub proof fn lemma_same_valid(&self, before: &Self)
        requires
            before.valid(),
            self.same_as(before),
            self.disk.inv(),
        ensures
            self.valid(),
            self.rest_kept(before, 0, 0),
            forall|k: u64| self.is_node(k) == before.is_node(k),
    {
        self.lemma_same_kept(before);
        self.lemma_tree_from_nodes_kept(before);
    }

    /// What two steps keep of the nodes, both together keep.
    pub proof fn lemma_rest_kept_twice(&self, mid: &Self, before: &Self, a: u64, b: u64)
        requires
            mid.rest_kept(before, a, b),
            self.rest_kept(mid, a, b),
        ensures
            self.rest_kept(before, a, b),
    {
        assert forall|k: u64| #[trigger] before.is_node(k) && k != a && k != b implies self.is_node(k)
            && self.model@.chains[k as int] == before.model@.chains[k as int] && self.record(k)
            == before.record(k) by {
            assert(mid.is_node(k));
        }
    }

    /// Keeping all nodes is keeping all but two.
    pub proof fn lemma_rest_kept_weaken(&self, before: &Self, a: u64, b: u64)
        requires
            before.wf(),
            self.rest_kept(before, 0, 0),
        ensures
            self.rest_kept(before, a, b),
    {
        assert forall|k: u64| #[trigger] before.is_node(k) && k != a && k != b implies self.is_node(k)
            && self.model@.chains[k as int] == before.model@.chains[k as int] && self.record(k)
            == before.record(k) by {
            lemma_node_not_free(before.disk@, before.header, before.model@, k as int);
        }
    }

    /// The tree stays proper when a node that no directory lists and that
    /// lists nothing ceases to be a node.
    pub proof fn lemma_tree_disown(&self, before: &Self, b: u64)
        requires
            before.valid(),
            before.is_node(b),
            b != before.header.root,
            before.kids(b).len() == 0,
            forall|k: u64, i: int|
                before.is_node(k) && before.record(k).is_dir() && 0 <= i < before.kids(k).len()
                    ==> #[trigger] before.kids(k)[i] != b,
            self.model@ == model_after_disown(before.model@, b as int),
            self.disk@ == before.disk@,
            self.header == before.header,
            self.disk.reliable() == before.disk.reliable(),
        ensures
            self.tree_ok(),
            self.rest_kept(before, b, b),
            forall|k: u64| self.is_node(k) <==> before.is_node(k) && k != b,
    {
        assert forall|k: u64| #[trigger] self.is_node(k) implies self.neat(k) && self.packed(k) by {
            assert(before.is_node(k));
        }
        assert(before.is_node(before.header.root));
        assert forall|k: u64| #[trigger] self.is_node(k) && self.record(k).is_dir() implies self.dir_ok(
            k,
        ) by {
            assert(before.is_node(k));
            assert(before.dir_ok(k));
            assert forall|i: int| 0 <= i < self.kids(k).len() implies self.is_node(
                #[trigger] self.kids(k)[i],
            ) && self.record(self.kids(k)[i]).parent == k && self.kids(k)[i] != k by {
                let c = before.kids(k)[i];
                assert(before.is_node(c));
            }
        }
    }

    /// Makes the node at `block`, which has one record and holds nothing, a
    /// loose block.
    pub(crate) fn disown(&mut self, block: u64)
        requires
            old(self).disk.inv(),
        ensures
            final(self).disk.inv(),
            final(self).disk@ == old(self).disk@,
            final(self).header == old(self).header,
            final(self).disk.reliable() == old(self).disk.reliable(),
            final(self).model@ == model_after_disown(old(self).model@, block as int),
            old(self).wf() && old(self).is_node(block) && block != old(self).header.root && old(self).model@.chains[block as int].blocks.len() == 1 && old(self).data(block).len() == 0 ==> final(self).wf() && final(self).range_loose(block, 1),
    {
        proof {
            if self.wf() && self.is_node(block) && block != self.header.root
                && self.model@.chains[block as int].blocks.len() == 1 && self.data(block).len() == 0 {
                self.lemma_len_is_data_len(block);
                lemma_disown(self.disk@, self.header, self.model@, block as int);
            }
        }
        self.model = Ghost(model_after_disown(self.model@, block as int));
    }
}

} // verus!

verus! {

impl<D: Disk> FileSystem<D> {
    /// What `create_node` returns and leaves of `before`, on a proper
    /// filesystem whose node at `parent` is to take the entry.
    pub open spec fn create_outcome(
        &self,
        before: &Self,
        mode: u32,
        name: Seq<u8>,
        parent: u64,
        uid: u32,
        gid: u32,
        ctime: u64,
        ctime_nsec: u32,
        r: Result<(u64, Node), Error>,
    ) -> bool {
        match r {
            Ok((b, n)) => {
                &&& before.record(parent).is_dir()
                &&& before.unnamed(parent, name)
                &&& self.valid()
                &&& !before.is_node(b)
                &&& self.is_node(b)
                &&& self.is_node(parent)
                &&& n@ == self.record(b)
                &&& n@ == (NodeView {
                    name: stored_name(name),
                    mode,
                    uid,
                    gid,
                    ctime,
                    ctime_nsec,
                    mtime: ctime,
                    mtime_nsec: ctime_nsec,
                    parent,
                    next: 0,
                    extents: Seq::new(16, |j: int| Extent { start: 0, length: 0 }),
                })
                &&& self.data(b).len() == 0
                &&& self.data(parent).len() == before.data(parent).len() + 8
                &&& self.kids(parent) == before.kids(parent).push(b)
                &&& self.named(parent, name, before.kids(parent).len() as int)
                &&& self.record(parent).same_meta(
                    NodeView { mtime: ctime, mtime_nsec: ctime_nsec, ..before.record(parent) },
                )
                &&& self.rest_kept(before, parent, parent)
                &&& forall|k: u64| self.is_node(k) <==> before.is_node(k) || k == b
                &&& self.loose_same(before)
                &&& self.free_blocks() == before.free_blocks() - 1 - before.growth_run(parent, (before.data(parent).len() + 8) as int)
                &&& self.model@.chains[b as int] == crate::tree::empty_chain(b as int)
                &&& self.free_blocks() + crate::shape::footprint(
                    self.model@.chains[parent as int],
                ) == before.free_blocks() - 1 + crate::shape::footprint(
                    before.model@.chains[parent as int],
                )
                &&& crate::shape::grew_from(
                    self.model@.chains[parent as int],
                    before.model@.chains[parent as int],
                    before.data(parent).len() as int,
                )
                &&& self.gives_less(
                    before,
                    1 + before.growth_run(parent, (before.data(parent).len() + 8) as int),
                )
            },
            Err(e) => {
                &&& e == Error::Io ==> !(before.disk.reliable() && before.data(parent).len()
                    <= usize::MAX) && self.wf()
                &&& e == Error::Exists || e == Error::NotDir || e == Error::NoSpace || e
                    == Error::Io
                &&& e == Error::Exists ==> self.same_as(before) && exists|i: int|
                    before.named(parent, name, i)
                &&& e == Error::NotDir ==> self.same_as(before) && !before.record(
                    parent,
                ).is_dir()
                &&& e == Error::NoSpace ==> {
                    &&& self.valid()
                    &&& self.rest_kept(before, 0, 0)
                    &&& self.free_blocks() == before.free_blocks()
                    &&& forall|k: u64| self.is_node(k) == before.is_node(k)
                    &&& self.loose_same(before)
                    &&& before.record(parent).is_dir()
                    &&& before.unnamed(parent, name)
                    &&& before.data(parent).len() + 8 > u64::MAX || !before.can_give(
                        1 + before.growth_run(parent, (before.data(parent).len() + 8) as int),
                    )
                }
            },
        }
    }

    /// Creates a node that holds nothing and enters it in the directory at
    /// `parent` under `name`.
    ///
    /// The node takes one block off the free list; its record has the mode,
    /// the owner and the time given, and both its times are `ctime`. Its
    /// block number goes behind the entries of the directory, which grows by
    /// eight bytes. When the free list cannot give what that takes, the
    /// node's block returns to it and the filesystem holds what it held.
    pub fn create_node(
        &mut self,
        mode: u32,
        name: &[u8],
        parent: u64,
        uid: u32,
        gid: u32,
        ctime: u64,
        ctime_nsec: u32,
    ) -> (r: Result<(u64, Node), Error>)
        requires
            old(self).disk.inv(),
        ensures
            final(self).disk.inv(),
            old(self).valid() && old(self).is_node(parent) ==> final(self).create_outcome(
                old(self),
                mode,
                name@,
                parent,
                uid,
                gid,
                ctime,
                ctime_nsec,
                r,
            ),
    {
        let ghost known = self.valid() && self.is_node(parent);
        proof {
            if known {
                lemma_node_not_free(self.disk@, self.header, self.model@, parent as int);
            }
        }
        match self.seek(name, parent) {
            Ok((i, _, _)) => {
                proof {
                    if known {
                        assert(old(self).named(parent, name@, i as int));
                    }
                }
                return Err(Error::Exists);
            },
            Err(Error::NotFound) => {},
            Err(Error::NotDir) => {
                return Err(Error::NotDir);
            },
            Err(_) => {
                return Err(Error::Io);
            },
        }
        if parent == 0 {
            return Err(Error::Io);
        }
        let len = match self.node_len(parent) {
            Ok(n) => n,
            Err(_) => {
                return Err(Error::Io);
            },
        };
        let ghost at0 = *self;
        proof {
            if known {
                at0.lemma_same_valid(old(self));
                assert(at0.is_node(parent));
                assert(at0.dir_ok(parent));
                assert(len == at0.data(parent).len());
            }
        }
        let block = match self.allocate(1) {
            Ok(b) => b,
            Err(Error::NoSpace) => {
                proof {
                    if known {
                        assert(old(self).growth_run(parent, (old(self).data(parent).len() + 8) as int) >= 0);
                        crate::fit::lemma_fit_less(
                            old(self).disk@,
                            old(self).model@.free,
                            1,
                            old(self).growth_run(parent, (old(self).data(parent).len() + 8) as int),
                        );
                        self.lemma_same_valid(&at0);
                        self.lemma_rest_kept_twice(&at0, old(self), 0, 0);
                        assert forall|x: int| 0 <= x < old(self).disk@.len() implies #[trigger] self.loose(
                            x,
                        ) == old(self).loose(x) by {
                            assert(self.loose(x) == at0.loose(x));
                        }
                    }
                }
                return Err(Error::NoSpace);
            },
            Err(_) => {
                return Err(Error::Io);
            },
        };
        let ghost at1 = *self;
        proof {
            if known {
                at1.lemma_tree_from_nodes_kept(&at0);
                at1.lemma_rest_kept_twice(&at0, old(self), 0, 0);
                assert(at1.loose(block as int));
                if at1.is_node(block) {
                    lemma_node_not_free(at1.disk@, at1.header, at1.model@, block as int);
                }
                assert(!at1.is_node(block));
                assert(at1.is_node(parent));
            }
        }
        let node = Node::new(mode, name, parent, uid, gid, ctime, ctime_nsec);
        if self.adopt(block, &node).is_err() {
            return Err(Error::Io);
        }
        let ghost at2 = *self;
        proof {
            if known {
                at2.lemma_tree_adopt(&at1, block);
                at2.lemma_rest_kept_twice(&at1, old(self), 0, 0);
                assert(at2.is_node(parent));
                assert(at2.data(parent) == at0.data(parent));
                assert(at2.record(parent) == at0.record(parent));
                assert(at2.free_blocks() == at1.free_blocks());
            }
        }
        let ptr = u64_to_le_bytes(block);
        match self.write_raw(parent, len, ptr.as_slice(), ctime, ctime_nsec) {
            Ok(_) => {
                proof {
                    if known {
                        let c = old(self).model@.chains[parent as int];
                        let last = c.blocks.last();
                        assert(link_ok(
                            old(self).disk@,
                            old(self).model@.owner,
                            c,
                            Owner::Link { head: parent as int },
                            true,
                            c.blocks.len() - 1,
                        ));
                        assert(at0.node_side(last));
                        assert(at1.model@.chains[parent as int] == c);
                        assert(at1.disk@[last] == old(self).disk@[last]);
                        assert(at1.model@.owner[last] is Link);
                        assert(at2.model@.chains[parent as int] == c);
                        assert(at2.disk@[last] == old(self).disk@[last]);
                        assert(at2.growth_run(parent, len + 8) == old(self).growth_run(
                            parent,
                            len + 8,
                        ));
                        assert(at1.free_blocks() == old(self).free_blocks() - 1);
                        at0.lemma_gives_same(old(self));
                        at1.lemma_gives_less_twice(&at0, old(self), 0, 1);
                        at2.lemma_gives_same(&at1);
                        at2.lemma_gives_less_twice(&at1, old(self), 1, 0);
                        self.lemma_gives_less_twice(
                            &at2,
                            old(self),
                            1,
                            old(self).growth_run(parent, len + 8),
                        );
                        let data = at2.data(parent);
                        let after = self.data(parent);
                        assert(at2.dir_ok(parent));
                        lemma_pointers_push(data, after, block);
                        assert(self.kids(parent) == at2.kids(parent).push(block));
                        assert(at1.dir_ok(parent));
                        assert(at1.kids(parent) == at2.kids(parent));
                        assert(self.model@.chains.dom().contains(block as int));
                        assert(self.is_node(block));
                        assert(self.model@.chains[block as int] == at2.model@.chains[block as int]);
                        assert(self.disk@[block as int] == at2.disk@[block as int]);
                        assert(self.dir_ok(parent)) by {
                            let kids = self.kids(parent);
                            assert forall|i: int| 0 <= i < kids.len() implies self.is_node(
                                #[trigger] kids[i],
                            ) && self.record(kids[i]).parent == parent && kids[i] != parent by {
                                if i < kids.len() - 1 {
                                    let c = at1.kids(parent)[i];
                                    assert(at1.is_node(c));
                                    assert(at2.is_node(c));
                                    assert(c != block);
                                    assert(self.model@.chains.dom().contains(c as int));
                                    assert(self.disk@[c as int] == at2.disk@[c as int]);
                                }
                            }
                            assert forall|i: int, j: int|
                                0 <= i < kids.len() && 0 <= j < kids.len() && i != j implies kids[i]
                                != kids[j] by {
                                if i < kids.len() - 1 {
                                    assert(at1.is_node(at1.kids(parent)[i]));
                                }
                                if j < kids.len() - 1 {
                                    assert(at1.is_node(at1.kids(parent)[j]));
                                }
                            }
                            assert forall|i: int, j: int| 0 <= i < j < kids.len() implies self.record(
                                #[trigger] kids[i],
                            ).name != self.record(#[trigger] kids[j]).name by {
                                let ks = old(self).kids(parent);
                                assert(ks == at1.kids(parent));
                                assert(old(self).dir_ok(parent));
                                assert(old(self).is_node(ks[i]));
                                assert(at1.is_node(ks[i]));
                                assert(at2.is_node(ks[i]));
                                assert(ks[i] != block && ks[i] != parent);
                                assert(self.model@.chains.dom().contains(ks[i] as int));
                                assert(self.disk@[ks[i] as int] == at2.disk@[ks[i] as int]);
                                lemma_node_not_free(
                                    old(self).disk@,
                                    old(self).header,
                                    old(self).model@,
                                    ks[i] as int,
                                );
                                assert(at2.record(ks[i]) == old(self).record(ks[i]));
                                assert(self.record(ks[i]) == old(self).record(ks[i]));
                                if j < kids.len() - 1 {
                                    assert(old(self).is_node(ks[j]));
                                    assert(at1.is_node(ks[j]));
                                    assert(at2.is_node(ks[j]));
                                    assert(ks[j] != block && ks[j] != parent);
                                    assert(self.model@.chains.dom().contains(ks[j] as int));
                                    assert(self.disk@[ks[j] as int] == at2.disk@[ks[j] as int]);
                                    lemma_node_not_free(
                                        old(self).disk@,
                                        old(self).header,
                                        old(self).model@,
                                        ks[j] as int,
                                    );
                                    assert(at2.record(ks[j]) == old(self).record(ks[j]));
                                    assert(self.record(ks[j]) == old(self).record(ks[j]));
                                    assert(old(self).record(ks[i]).name != old(self).record(
                                        ks[j],
                                    ).name);
                                } else {
                                    assert(old(self).record(ks[i]).name != stored_name(name@));
                                }
                            }
                        }
                        self.lemma_tree_kept(&at2, parent);
                        assert(self.named(parent, name@, old(self).kids(parent).len() as int)) by {
                            let ks = old(self).kids(parent);
                            assert(self.kids(parent)[ks.len() as int] == block);
                            assert(self.record(block).name == stored_name(name@));
                            assert forall|t: int| 0 <= t < ks.len() implies self.record(
                                #[trigger] self.kids(parent)[t],
                            ).name != stored_name(name@) by {
                                assert(self.kids(parent)[t] == ks[t]);
                                assert(old(self).dir_ok(parent));
                                assert(old(self).is_node(ks[t]));
                                assert(at1.is_node(ks[t]));
                                assert(at2.is_node(ks[t]));
                                assert(ks[t] != block && ks[t] != parent);
                                lemma_node_not_free(
                                    old(self).disk@,
                                    old(self).header,
                                    old(self).model@,
                                    ks[t] as int,
                                );
                                assert(self.model@.chains.dom().contains(ks[t] as int));
                                assert(self.disk@[ks[t] as int] == at2.disk@[ks[t] as int]);
                                assert(at2.record(ks[t]) == old(self).record(ks[t]));
                                assert(old(self).record(ks[t]).name != stored_name(name@));
                            }
                        }
                        assert forall|x: int| 0 <= x < old(self).disk@.len() implies #[trigger] self.loose(
                            x,
                        ) == old(self).loose(x) by {
                            assert(self.loose(x) == at2.loose(x));
                            assert(at2.loose(x) == (at1.loose(x) && x != block));
                            assert(at1.loose(x) == (at0.loose(x) || block <= x < block + 1));
                            assert(at0.model@.owner[block as int] is Held);
                        }
                        at2.lemma_rest_kept_weaken(old(self), parent, parent);
                        self.lemma_rest_kept_twice(&at2, old(self), parent, parent);
                        assert forall|k: u64| self.is_node(k) <==> old(self).is_node(k) || k
                            == block by {
                            assert(self.model@.chains.dom() == at2.model@.chains.dom());
                            assert(self.is_node(k) == at2.is_node(k));
                        }
                    }
                }
                Ok((block, node))
            },
            Err(Error::NoSpace) => {
                let ghost at3 = *self;
                proof {
                    if known && len + 8 <= u64::MAX {
                        let c = old(self).model@.chains[parent as int];
                        let last = c.blocks.last();
                        assert(link_ok(
                            old(self).disk@,
                            old(self).model@.owner,
                            c,
                            Owner::Link { head: parent as int },
                            true,
                            c.blocks.len() - 1,
                        ));
                        assert(at0.node_side(last));
                        assert(at1.model@.chains[parent as int] == c);
                        assert(at1.disk@[last] == old(self).disk@[last]);
                        assert(at1.model@.owner[last] is Link);
                        assert(at2.model@.chains[parent as int] == c);
                        assert(at2.disk@[last] == old(self).disk@[last]);
                        let g = old(self).growth_run(parent, len + 8);
                        assert(at2.growth_run(parent, len + 8) == g);
                        assert(!at2.can_give(g));
                        at2.lemma_gives_same(&at1);
                        assert(!at1.can_give(g));
                        assert(!at0.can_give(g + 1));
                    }
                    if known {
                        at3.lemma_tree_from_nodes_kept(&at2);
                        assert(at3.is_node(block));
                        assert(at3.model@.chains[block as int] == at2.model@.chains[block as int]);
                        assert(at3.header.root != block);
                        assert(at3.kids(block) =~= Seq::<u64>::empty()) by {
                            assert(at3.data(block) == at2.data(block));
                        }
                        assert forall|k: u64, i: int|
                            at3.is_node(k) && at3.record(k).is_dir() && 0 <= i < at3.kids(k).len() implies #[trigger] at3.kids(
                            k,
                        )[i] != block by {
                            if k != block {
                                assert(at2.is_node(k));
                                assert(at1.is_node(k));
                                assert(at1.dir_ok(k));
                                assert(at1.is_node(at1.kids(k)[i]));
                            }
                        }
                    }
                }
                self.disown(block);
                let ghost at4 = *self;
                proof {
                    if known {
                        at4.lemma_tree_disown(&at3, block);
                    }
                }
                if self.deallocate(block, 1).is_err() {
                    return Err(Error::Io);
                }
                proof {
                    if known {
                        self.lemma_tree_from_nodes_kept(&at4);
                        assert forall|x: int| 0 <= x < old(self).disk@.len() implies #[trigger] self.loose(
                            x,
                        ) == old(self).loose(x) by {
                            assert(self.loose(x) == (at4.loose(x) && !(block <= x < block + 1)));
                            assert(at4.loose(x) == (at3.loose(x) || x == block));
                            assert(at3.loose(x) == at2.loose(x));
                            assert(at2.loose(x) == (at1.loose(x) && x != block));
                            assert(at1.loose(x) == (at0.loose(x) || block <= x < block + 1));
                            assert(at0.model@.owner[block as int] is Held);
                        }
                        assert forall|k: u64| #[trigger] old(self).is_node(k) implies self.is_node(k)
                            && self.model@.chains[k as int] == old(self).model@.chains[k as int]
                            && self.record(k) == old(self).record(k) by {
                            lemma_node_not_free(
                                old(self).disk@,
                                old(self).header,
                                old(self).model@,
                                k as int,
                            );
                            assert(at2.is_node(k));
                            assert(at3.is_node(k));
                            assert(k != block);
                            assert(at4.is_node(k));
                        }
                        assert forall|k: u64| self.is_node(k) == old(self).is_node(k) by {
                            assert(self.is_node(k) == at4.is_node(k));
                            assert(at3.is_node(k) == at2.is_node(k));
                        }
                    }
                }
                Err(Error::NoSpace)
            },
            Err(_) => Err(Error::Io),
        }
    }
}

} // verus!

verus! {

impl<D: Disk> FileSystem<D> {
    /// Whether a node of mode `have` is of the kind that `mode` asks for.
    pub open spec fn kind_matches(have: u32, mode: u32) -> bool {
        have & MODE_TYPE == mode & MODE_TYPE
    }

    /// What `remove_node` returns and leaves of `before`, on a proper
    /// filesystem whose node at `parent` is to lose the entry.
    pub open spec fn remove_outcome(
        &self,
        before: &Self,
        mode: u32,
        name: Seq<u8>,
        parent: u64,
        r: Result<(), Error>,
    ) -> bool {
        match r {
            Ok(()) => {
                &&& before.record(parent).is_dir()
                &&& exists|i: int|
                    {
                        let b = before.kids(parent)[i];
                        &&& #[trigger] before.named(parent, name, i)
                        &&& Self::kind_matches(before.record(b).mode, mode)
                        &&& before.record(b).is_dir() ==> before.kids(b).len() == 0
                        &&& self.kids(parent) == swap_removed(before.kids(parent), i)
                        &&& !self.is_node(b)
                        &&& self.is_free(b as int)
                        &&& self.free_blocks() >= before.free_blocks() + 1 + before.data(b).len() / 512
                        &&& self.free_blocks() == before.free_blocks()
                            + crate::shape::footprint(before.model@.chains[b as int])
                            + crate::shape::footprint(before.model@.chains[parent as int])
                            - crate::shape::shrunk_footprint(
                            before.model@.chains[parent as int],
                            8 * (before.kids(parent).len() - 1),
                        )
                        &&& self.rest_kept(before, parent, b)
                        &&& forall|k: u64| self.is_node(k) <==> before.is_node(k) && k != b
                    }
                &&& self.valid()
                &&& self.is_node(parent)
                &&& self.data(parent).len() == before.data(parent).len() - 8
                &&& self.record(parent).same_meta(before.record(parent))
                &&& self.loose_same(before)
                &&& self.unnamed(parent, name)
                &&& self.gives_less(before, 0)
            },
            Err(e) => {
                &&& e == Error::Io ==> !(before.disk.reliable() && before.data(parent).len()
                    <= usize::MAX) && self.wf()
                &&& e != Error::Io ==> self.same_as(before)
                &&& e == Error::NotFound ==> before.record(parent).is_dir() && before.unnamed(parent, name)
                &&& e == Error::NotDir ==> !before.record(parent).is_dir() || exists|i: int|
                    {
                        let b = before.kids(parent)[i];
                        &&& #[trigger] before.named(parent, name, i)
                        &&& !Self::kind_matches(before.record(b).mode, mode)
                        &&& !before.record(b).is_dir()
                    }
                &&& e == Error::IsDir ==> exists|i: int|
                    {
                        let b = before.kids(parent)[i];
                        &&& #[trigger] before.named(parent, name, i)
                        &&& !Self::kind_matches(before.record(b).mode, mode)
                        &&& before.record(b).is_dir()
                    }
                &&& e == Error::NotEmpty ==> exists|i: int|
                    {
                        let b = before.kids(parent)[i];
                        &&& #[trigger] before.named(parent, name, i)
                        &&& Self::kind_matches(before.record(b).mode, mode)
                        &&& before.record(b).is_dir()
                        &&& before.kids(b).len() > 0
                    }
                &&& e == Error::NotFound || e == Error::NotDir || e == Error::IsDir || e
                    == Error::NotEmpty || e == Error::Io
            },
        }
    }

    /// Removes the entry that goes by `name` from the directory at `parent`,
    /// and the node with it.
    ///
    /// The node has to be of the kind that `mode` names, and a directory has
    /// to be empty. The last entry of the directory takes the place of the
    /// one that leaves, and the directory shrinks by eight bytes. The node's
    /// extents, its further records and its first record return to the free
    /// list.
    #[verifier::rlimit(100)]
    #[verifier::spinoff_prover]
    pub fn remove_node(&mut self, mode: u32, name: &[u8], parent: u64) -> (r: Result<(), Error>)
        requires
            old(self).disk.inv(),
        ensures
            final(self).disk.inv(),
            old(self).valid() && old(self).is_node(parent) ==> final(self).remove_outcome(
                old(self),
                mode,
                name@,
                parent,
                r,
            ),
    {
        let ghost known = self.valid() && self.is_node(parent);
        proof {
            if known {
                lemma_node_not_free(self.disk@, self.header, self.model@, parent as int);
            }
        }
        let (i, b, child) = match self.seek(name, parent) {
            Ok(found) => found,
            Err(Error::NotFound) => {
                return Err(Error::NotFound);
            },
            Err(Error::NotDir) => {
                return Err(Error::NotDir);
            },
            Err(_) => {
                return Err(Error::Io);
            },
        };
        proof {
            if known {
                assert(old(self).named(parent, name@, i as int));
                assert(old(self).dir_ok(parent));
                assert(old(self).is_node(b));
            }
        }
        if child.mode & MODE_TYPE != mode & MODE_TYPE {
            if child.is_dir() {
                return Err(Error::IsDir);
            } else {
                return Err(Error::NotDir);
            }
        }
        if child.is_dir() {
            let inner = match self.node_len(b) {
                Ok(n) => n,
                Err(_) => {
                    return Err(Error::Io);
                },
            };
            if inner >= 8 {
                return Err(Error::NotEmpty);
            }
        }
        let kids = match self.child_blocks(parent) {
            Ok(v) => v,
            Err(_) => {
                return Err(Error::Io);
            },
        };
        let n = kids.len();
        if i >= n || b == parent || b == self.header.root || n > (usize::MAX / 8) {
            proof {
                if known {
                    assert(old(self).is_node(old(self).header.root));
                    assert(old(self).data(parent).len() % 8 == 0);
                }
            }
            return Err(Error::Io);
        }
        let ghost at0 = *self;
        let ghost kids0 = old(self).kids(parent);
        proof {
            if known {
                at0.lemma_same_valid(old(self));
                assert(at0.kids(parent) == kids0);
                assert(at0.is_node(b));
                assert(at0.is_node(parent));
                assert(kids0.len() == at0.data(parent).len() / 8);
            }
        }
        if i + 1 < n {
            let last = u64_to_le_bytes(kids[n - 1]);
            match self.overwrite(parent, 8 * (i as u64), last.as_slice()) {
                Ok(_) => {},
                Err(_) => {
                    return Err(Error::Io);
                },
            }
            proof {
                if known {
                    self.lemma_data_keeps(&at0, parent);
                    let data = at0.data(parent);
                    let after = self.data(parent);
                    assert(written(data, 8 * i, spec_u64_to_le_bytes(kids0[n - 1]), after));
                    lemma_pointers_update(data, after, i as int, kids0[n - 1]);
                }
            }
        }
        let ghost at1 = *self;
        proof {
            if known {
                at0.lemma_gives_same(old(self));
                if i + 1 >= n {
                    at1.lemma_gives_same(&at0);
                }
                at1.lemma_gives_less_twice(&at0, old(self), 0, 0);
                assert(at1.kids(parent) =~= kids0.update(i as int, kids0.last()));
                assert(at1.others_kept(&at0, parent));
                assert(at1.wf() && at1.is_node(parent));
                assert(at1.record(parent) == at0.record(parent));
                assert(at1.data(parent).len() == at0.data(parent).len());
                assert(at1.free_blocks() == old(self).free_blocks());
                assert(at1.model@.chains[parent as int].base == old(self).model@.chains[parent as int].base);
                assert(at1.model@.chains[parent as int].blocks == old(
                    self,
                ).model@.chains[parent as int].blocks);
            }
        }
        match self.node_set_len(parent, 8 * ((n - 1) as u64)) {
            Ok(()) => {},
            Err(_) => {
                return Err(Error::Io);
            },
        }
        let ghost at2 = *self;
        proof {
            if known {
                at2.lemma_gives_less_twice(&at1, old(self), 0, 0);
                lemma_pointers_take(at1.data(parent), n - 1);
                assert(at2.kids(parent) == swap_removed(kids0, i as int));
                at2.lemma_others_kept_twice(&at1, &at0, parent);
                assert(at0.model@.chains.dom().contains(b as int));
                assert(at2.is_node(b));
                assert(at2.model@.chains[b as int] == at0.model@.chains[b as int]);
                assert(at2.disk@[b as int] == at0.disk@[b as int]);
                let limit = 8 * (kids0.len() - 1);
                assert(8 * ((n - 1) as u64) == limit);
                assert(crate::shape::shrunk_footprint(at1.model@.chains[parent as int], limit)
                    == crate::shape::shrunk_footprint(old(self).model@.chains[parent as int], limit));
                assert(crate::shape::footprint(at1.model@.chains[parent as int])
                    == crate::shape::footprint(old(self).model@.chains[parent as int]));
                assert(at2.free_blocks() == old(self).free_blocks() + crate::shape::footprint(
                    old(self).model@.chains[parent as int],
                ) - crate::shape::shrunk_footprint(old(self).model@.chains[parent as int], limit));
            }
        }
        match self.node_set_len(b, 0) {
            Ok(()) => {},
            Err(_) => {
                return Err(Error::Io);
            },
        }
        let ghost at3 = *self;
        proof {
            if known {
                at3.lemma_gives_less_twice(&at2, old(self), 0, 0);
                assert(at2.model@.chains.dom().contains(parent as int));
                assert(at3.is_node(parent));
                assert(at3.model@.chains[parent as int] == at2.model@.chains[parent as int]);
                assert(at3.disk@[parent as int] == at2.disk@[parent as int]);
                let cb = old(self).model@.chains[b as int];
                assert(at2.model@.chains[b as int] == cb);
                assert forall|t: int| 0 <= t <= 16 * cb.blocks.len() implies #[trigger] cb.base[t]
                    >= 0 by {
                    crate::rewrite::lemma_base_mono(
                        old(self).disk@,
                        old(self).model@.owner,
                        cb,
                        Owner::Link { head: b as int },
                        true,
                        0,
                        t,
                    );
                }
                crate::shape::lemma_shrunk_zero(cb, cb.blocks.len() as int);
                assert(crate::shape::shrunk_footprint(cb, 0) == 1);
                assert(at3.free_blocks() == at2.free_blocks() + crate::shape::footprint(cb) - 1);
            }
        }
        self.disown(b);
        let ghost at4 = *self;
        proof {
            if known {
                assert(at4.is_node(parent));
                lemma_node_not_free(at4.disk@, at4.header, at4.model@, parent as int);
                assert(at4.node_side(parent as int));
                assert(at4.free_blocks() == at3.free_blocks());
                at4.lemma_gives_same(&at3);
                at4.lemma_gives_less_twice(&at3, old(self), 0, 0);
            }
        }
        if self.deallocate(b, 1).is_err() {
            return Err(Error::Io);
        }
        proof {
            if known {
                self.lemma_gives_less_twice(&at4, old(self), 0, 0);
                assert(self.is_node(parent));
                assert(self.data(parent) == at2.data(parent));
                assert(self.record(parent) == at2.record(parent));
                assert(self.kids(parent) == swap_removed(kids0, i as int));
                assert forall|k: u64| self.is_node(k) <==> old(self).is_node(k) && k != b by {
                    assert(at4.is_node(k) == (at3.is_node(k) && k != b));
                    assert(at3.model@.chains.dom() == at2.model@.chains.dom());
                    assert(at2.model@.chains.dom() == at1.model@.chains.dom());
                    assert(at1.model@.chains.dom() == at0.model@.chains.dom());
                    assert(at3.is_node(k) == at0.is_node(k));
                }
                assert forall|k: u64| #[trigger]
                    old(self).is_node(k) && k != parent && k != b implies self.is_node(k)
                    && self.model@.chains[k as int] == old(self).model@.chains[k as int]
                    && self.record(k) == old(self).record(
                    k,
                ) by {
                    assert(at0.is_node(k));
                    assert(at0.model@.chains.contains_key(k as int));
                    assert(at1.model@.chains.dom().contains(k as int));
                    assert(at1.model@.chains[k as int] == at0.model@.chains[k as int]);
                    assert(at1.disk@[k as int] == at0.disk@[k as int]);
                    assert(at2.model@.chains.dom().contains(k as int));
                    assert(at2.model@.chains[k as int] == at1.model@.chains[k as int]);
                    assert(at2.disk@[k as int] == at1.disk@[k as int]);
                    assert(at3.model@.chains.dom().contains(k as int));
                    assert(at3.model@.chains[k as int] == at2.model@.chains[k as int]);
                    assert(at3.disk@[k as int] == at2.disk@[k as int]);
                    assert(at4.is_node(k));
                    lemma_node_not_free(at4.disk@, at4.header, at4.model@, k as int);
                    assert(at4.node_side(k as int));
                }
                self.lemma_tree_removed(old(self), parent, b, i as int);
                assert(self.unnamed(parent, name@)) by {
                    let n = kids0.len() as int;
                    assert forall|t: int| 0 <= t < self.kids(parent).len() implies self.record(
                        #[trigger] self.kids(parent)[t],
                    ).name != stored_name(name@) by {
                        let t0 = if t == i {
                            n - 1
                        } else {
                            t
                        };
                        assert(self.kids(parent)[t] == kids0[t0]);
                        assert(old(self).is_node(kids0[t0]));
                        assert(kids0[t0] != b && kids0[t0] != parent);
                        assert(self.record(kids0[t0]) == old(self).record(kids0[t0]));
                        if t0 < i {
                            assert(old(self).record(kids0[t0]).name != old(self).record(
                                kids0[i as int],
                            ).name);
                        } else {
                            assert(old(self).record(kids0[i as int]).name != old(self).record(
                                kids0[t0],
                            ).name);
                        }
                    }
                }
                lemma_node_not_free(at0.disk@, at0.header, at0.model@, b as int);
                assert forall|x: int| 0 <= x < old(self).disk@.len() implies #[trigger] self.loose(x)
                    == old(self).loose(x) by {
                    assert(self.loose(x) == (at4.loose(x) && !(b <= x < b + 1)));
                    assert(at4.loose(x) == (at3.loose(x) || x == b));
                    assert(at3.loose(x) == at2.loose(x));
                    assert(at2.loose(x) == at1.loose(x));
                    assert(at1.loose(x) == at0.loose(x));
                }
            }
        }
        Ok(())
    }
}

} // verus!
