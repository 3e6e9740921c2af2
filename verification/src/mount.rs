use vstd::prelude::*;
use crate::attr::{attr_for, attr_of, block_inode, block_of, inode_block, inode_of, Attr};
use crate::content::lemma_node_not_free;
use crate::disk::Disk;
use crate::error::Error;
use crate::fs::FileSystem;
use crate::node::Node;

verus! {

impl<D: Disk> FileSystem<D> {
    /// What a host is told of the node with inode number `ino`. A number
    /// that stands for no block is not found.
    pub fn getattr(&mut self, ino: u64) -> (r: Result<Attr, Error>)
        requires
            old(self).disk.inv(),
        ensures
            final(self).disk.inv(),
            final(self).same_as(old(self)),
            block_of(old(self).header.root, ino) is None ==> r == Err::<Attr, Error>(Error::NotFound),
            block_of(old(self).header.root, ino) is Some ==> ({
                let block = block_of(old(self).header.root, ino)->Some_0;
                old(self).wf() && old(self).is_node(block) ==> match r {
                    Ok(a) => a == attr_for(
                        ino,
                        old(self).record(block),
                        old(self).data(block).len() as u64,
                    ),
                    Err(e) => e == Error::Io && !old(self).disk.reliable(),
                }
            }),
    {
        let block = match inode_block(self.header.root, ino) {
            Some(b) => b,
            None => {
                return Err(Error::NotFound);
            },
        };
        proof {
            crate::attr::lemma_inode_round_trip(self.header.root, block, ino);
        }
        self.attr(block)
    }

    /// Looks `name` up in the directory with inode number `ino` and tells
    /// what a host is told of the entry found.
    pub fn lookup(&mut self, ino: u64, name: &[u8]) -> (r: Result<Attr, Error>)
        requires
            old(self).disk.inv(),
        ensures
            final(self).disk.inv(),
            final(self).same_as(old(self)),
            block_of(old(self).header.root, ino) is None ==> r == Err::<Attr, Error>(Error::NotFound),
            block_of(old(self).header.root, ino) is Some ==> ({
                let parent = block_of(old(self).header.root, ino)->Some_0;
                old(self).valid() && old(self).is_node(parent) ==> match r {
                    Ok(a) => {
                        &&& old(self).record(parent).is_dir()
                        &&& exists|i: int|
                            {
                                let b = old(self).kids(parent)[i];
                                &&& #[trigger] old(self).named(parent, name@, i)
                                &&& inode_of(old(self).header.root, b) == Some(a.ino)
                                &&& a == attr_for(a.ino, old(self).record(b), old(self).data(b).len() as u64)
                            }
                    },
                    Err(e) => {
                        &&& e == Error::NotFound || e == Error::NotDir || e == Error::Io
                        &&& e == Error::NotFound ==> old(self).record(parent).is_dir() && old(
                            self,
                        ).unnamed(parent, name@)
                        &&& e == Error::NotDir ==> !old(self).record(parent).is_dir()
                        &&& !old(self).record(parent).is_dir() ==> e == Error::NotDir || e == Error::Io
                        &&& e == Error::Io ==> !(old(self).disk.reliable() && old(self).data(parent).len()
                            <= usize::MAX && old(self).numbered(parent))
                    },
                }
            }),
    {
        let parent = match inode_block(self.header.root, ino) {
            Some(b) => b,
            None => {
                return Err(Error::NotFound);
            },
        };
        let ghost known = self.valid() && self.is_node(parent);
        let (i, block, _) = match self.seek(name, parent) {
            Ok(found) => found,
            Err(e) => {
                return Err(e);
            },
        };
        proof {
            if known {
                assert(old(self).named(parent, name@, i as int));
                assert(old(self).dir_ok(parent));
                assert(old(self).is_node(block));
                self.lemma_same_valid(old(self));
            }
        }
        self.attr(block)
    }

    /// Creates a node of mode `mode` under `name` in the directory with
    /// inode number `ino`, as `create_node` does, and tells what a host is
    /// told of the new node. The answer is made from the record that was
    /// written; nothing is read again.
    pub fn make(
        &mut self,
        mode: u32,
        ino: u64,
        name: &[u8],
        uid: u32,
        gid: u32,
        ctime: u64,
        ctime_nsec: u32,
    ) -> (r: Result<Attr, Error>)
        requires
            old(self).disk.inv(),
        ensures
            final(self).disk.inv(),
            block_of(old(self).header.root, ino) is None ==> r == Err::<Attr, Error>(Error::NotFound)
                && final(self).same_as(old(self)),
            block_of(old(self).header.root, ino) is Some ==> ({
                let parent = block_of(old(self).header.root, ino)->Some_0;
                old(self).valid() && old(self).is_node(parent) ==> match r {
                    Ok(a) => exists|b: u64, n: Node|
                        {
                            &&& #[trigger] final(self).create_outcome(
                                old(self),
                                mode,
                                name@,
                                parent,
                                uid,
                                gid,
                                ctime,
                                ctime_nsec,
                                Ok((b, n)),
                            )
                            &&& inode_of(old(self).header.root, b) == Some(a.ino)
                            &&& a == attr_for(a.ino, n@, 0)
                        },
                    Err(e) => {
                        ||| final(self).create_outcome(
                            old(self),
                            mode,
                            name@,
                            parent,
                            uid,
                            gid,
                            ctime,
                            ctime_nsec,
                            Err(e),
                        )
                        ||| e == Error::Io && old(self).header.root > 4 && exists|b: u64, n: Node|
                            {
                                &&& #[trigger] final(self).create_outcome(
                                    old(self),
                                    mode,
                                    name@,
                                    parent,
                                    uid,
                                    gid,
                                    ctime,
                                    ctime_nsec,
                                    Ok((b, n)),
                                )
                                &&& inode_of(old(self).header.root, b) is None
                            }
                    },
                }
            }),
    {
        let parent = match inode_block(self.header.root, ino) {
            Some(b) => b,
            None => {
                return Err(Error::NotFound);
            },
        };
        let ghost known = self.valid() && self.is_node(parent);
        let (block, node) = match self.create_node(mode, name, parent, uid, gid, ctime, ctime_nsec) {
            Ok(made) => made,
            Err(e) => {
                return Err(e);
            },
        };
        proof {
            if known {
                assert(self.create_outcome(
                    old(self),
                    mode,
                    name@,
                    parent,
                    uid,
                    gid,
                    ctime,
                    ctime_nsec,
                    Ok((block, node)),
                ));
                assert(self.header.root == old(self).header.root);
                lemma_node_not_free(self.disk@, self.header, self.model@, block as int);
            }
        }
        match block_inode(self.header.root, block) {
            Some(number) => Ok(attr_of(number, &node, 0)),
            None => Err(Error::Io),
        }
    }

    /// Removes the entry `name` of the directory with inode number `ino`,
    /// as `remove_node` does.
    pub fn remove(&mut self, mode: u32, ino: u64, name: &[u8]) -> (r: Result<(), Error>)
        requires
            old(self).disk.inv(),
        ensures
            final(self).disk.inv(),
            block_of(old(self).header.root, ino) is None ==> r == Err::<(), Error>(Error::NotFound)
                && final(self).same_as(old(self)),
            block_of(old(self).header.root, ino) is Some ==> ({
                let parent = block_of(old(self).header.root, ino)->Some_0;
                old(self).valid() && old(self).is_node(parent) ==> final(self).remove_outcome(old(self), mode, name@, parent, r)
            }),
    {
        match inode_block(self.header.root, ino) {
            Some(parent) => self.remove_node(mode, name, parent),
            None => Err(Error::NotFound),
        }
    }
}

} // verus!
