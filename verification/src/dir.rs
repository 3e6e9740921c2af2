use vstd::prelude::*;
use vstd::bytes::u64_from_le_bytes;
use vstd::slice::slice_subrange;
use crate::content::lemma_node_not_free;
use crate::disk::Disk;
use crate::error::Error;
use crate::fs::{pointers, FileSystem};
use crate::node::{bytes_eq, stored_name, Node, NAME_MAX};

verus! {

/// The block numbers that the bytes of a directory spell.
pub fn parse_pointers(data: &[u8]) -> (r: Vec<u64>)
    ensures
        r@ == pointers(data@),
{
    let len = data.len();
    let count = len / 8;
    let mut out: Vec<u64> = Vec::new();
    let mut i: usize = 0;
    while i < count
        invariant
            i <= count,
            len == data@.len(),
            count == data@.len() / 8,
            out@.len() == i,
            forall|t: int| 0 <= t < i ==> out@[t] == pointers(data@)[t],
        decreases count - i,
    {
        let v = u64_from_le_bytes(slice_subrange(data, 8 * i, 8 * i + 8));
        out.push(v);
        i += 1;
    }
    assert(out@ =~= pointers(data@));
    out
}

/// A name as a record stores it: its first bytes, as many as the name field
/// can take.
pub fn stored(name: &[u8]) -> (r: &[u8])
    ensures
        r@ == stored_name(name@),
{
    if name.len() <= NAME_MAX {
        name
    } else {
        slice_subrange(name, 0, NAME_MAX)
    }
}

impl<D: Disk> FileSystem<D> {
    /// Entry `i` of the directory at `parent` is the first whose node goes
    /// by `name`.
    pub open spec fn named(&self, parent: u64, name: Seq<u8>, i: int) -> bool {
        let kids = self.kids(parent);
        &&& 0 <= i < kids.len()
        &&& self.record(kids[i]).name == stored_name(name)
        &&& forall|t: int| 0 <= t < i ==> self.record(#[trigger] kids[t]).name != stored_name(name)
    }

    /// No entry of the directory at `parent` goes by `name`.
    pub open spec fn unnamed(&self, parent: u64, name: Seq<u8>) -> bool {
        let kids = self.kids(parent);
        forall|t: int| 0 <= t < kids.len() ==> self.record(#[trigger] kids[t]).name != stored_name(name)
    }

    /// All the bytes of the node at `block`. A node that holds more bytes
    /// than `usize` counts cannot be held in memory and is refused.
    pub fn read_all(&mut self, block: u64) -> (r: Result<Vec<u8>, Error>)
        requires
            old(self).disk.inv(),
        ensures
            final(self).disk.inv(),
            final(self).same_as(old(self)),
            old(self).wf() && old(self).is_node(block) ==> match r {
                Ok(v) => v@ == old(self).data(block),
                Err(e) => e == Error::Io && !(old(self).disk.reliable() && old(self).data(block).len()
                    <= usize::MAX),
            },
    {
        let ghost known = self.wf() && self.is_node(block);
        proof {
            if known {
                lemma_node_not_free(self.disk@, self.header, self.model@, block as int);
            }
        }
        let len = match self.node_len(block) {
            Ok(n) => n,
            Err(_) => {
                return Err(Error::Io);
            },
        };
        if len > usize::MAX as u64 {
            return Err(Error::Io);
        }
        let mut buf: Vec<u8> = Vec::new();
        buf.resize(len as usize, 0u8);
        let n = match self.read_node(block, 0, buf.as_mut_slice()) {
            Ok(n) => n,
            Err(_) => {
                return Err(Error::Io);
            },
        };
        proof {
            if known {
                let data = old(self).data(block);
                assert(n == len);
                if n > 0 {
                    assert(buf@.subrange(0, n as int) =~= buf@);
                    assert(data.subrange(0, n as int) =~= data);
                }
                assert(buf@ =~= data);
            }
        }
        Ok(buf)
    }

    /// The blocks that the directory at `parent` lists, in order.
    pub fn child_blocks(&mut self, parent: u64) -> (r: Result<Vec<u64>, Error>)
        requires
            old(self).disk.inv(),
        ensures
            final(self).disk.inv(),
            final(self).same_as(old(self)),
            old(self).wf() && old(self).is_node(parent) ==> match r {
                Ok(v) => v@ == old(self).kids(parent),
                Err(e) => e == Error::Io && !(old(self).disk.reliable() && old(self).data(parent).len()
                    <= usize::MAX),
            },
    {
        let data = match self.read_all(parent) {
            Ok(v) => v,
            Err(_) => {
                return Err(Error::Io);
            },
        };
        Ok(parse_pointers(data.as_slice()))
    }

    /// Looks `name` up in the directory at `parent`: the entry's place in
    /// the list, its block, and its record.
    pub fn seek(&mut self, name: &[u8], parent: u64) -> (r: Result<(usize, u64, Node), Error>)
        requires
            old(self).disk.inv(),
        ensures
            final(self).disk.inv(),
            final(self).same_as(old(self)),
            parent == 0 ==> r is Err && r->Err_0 == Error::NotFound,
            r matches Ok((i, b, n)) ==> n.wf(),
            old(self).wf() && old(self).is_node(parent) ==> match r {
                Ok((i, b, n)) => {
                    &&& old(self).record(parent).is_dir()
                    &&& old(self).named(parent, name@, i as int)
                    &&& b == old(self).kids(parent)[i as int]
                    &&& n@ == old(self).record(b)
                },
                Err(e) => {
                    &&& e == Error::NotFound || e == Error::NotDir || e == Error::Io
                    &&& e == Error::NotFound ==> old(self).record(parent).is_dir() && old(
                        self,
                    ).unnamed(parent, name@)
                    &&& e == Error::NotDir ==> !old(self).record(parent).is_dir()
                    &&& !old(self).record(parent).is_dir() ==> e == Error::NotDir || e == Error::Io
                },
            },
            old(self).valid() && old(self).is_node(parent) && old(self).disk.reliable() && old(
                self,
            ).data(parent).len() <= usize::MAX ==> !(r matches Err(Error::Io)),
    {
        let ghost known = self.wf() && self.is_node(parent);
        proof {
            if known {
                lemma_node_not_free(self.disk@, self.header, self.model@, parent as int);
            }
        }
        if parent == 0 {
            return Err(Error::NotFound);
        }
        let rec = match self.node(parent) {
            Ok((_, n)) => n,
            Err(_) => {
                return Err(Error::Io);
            },
        };
        if !rec.is_dir() {
            return Err(Error::NotDir);
        }
        let kids = match self.child_blocks(parent) {
            Ok(v) => v,
            Err(_) => {
                return Err(Error::Io);
            },
        };
        let want = stored(name);
        let count = kids.len();
        let mut i: usize = 0;
        while i < count
            invariant
                i <= count,
                count == kids@.len(),
                self.disk.inv(),
                self.same_as(old(self)),
                want@ == stored_name(name@),
                parent != 0,
                known == (old(self).wf() && old(self).is_node(parent)),
                known ==> kids@ == old(self).kids(parent),
                known ==> old(self).record(parent).is_dir(),
                known ==> forall|t: int|
                    0 <= t < i ==> old(self).record(#[trigger] old(self).kids(parent)[t]).name
                        != stored_name(name@),
            decreases count - i,
        {
            proof {
                if known && old(self).tree_ok() {
                    assert(old(self).dir_ok(parent));
                    let k = old(self).kids(parent)[i as int];
                    assert(old(self).is_node(k));
                    lemma_node_not_free(
                        old(self).disk@,
                        old(self).header,
                        old(self).model@,
                        k as int,
                    );
                }
            }
            let child = match self.node(kids[i]) {
                Ok((_, n)) => n,
                Err(_) => {
                    return Err(Error::Io);
                },
            };
            if bytes_eq(child.name(), want) {
                return Ok((i, kids[i], child));
            }
            i += 1;
        }
        Err(Error::NotFound)
    }

    /// Looks `name` up in the directory at `parent` and returns the block
    /// and the record of the first entry that goes by it. Names are compared
    /// byte by byte, as far as a record can store them.
    pub fn find_node(&mut self, name: &[u8], parent: u64) -> (r: Result<(u64, Node), Error>)
        requires
            old(self).disk.inv(),
        ensures
            final(self).disk.inv(),
            final(self).same_as(old(self)),
            parent == 0 ==> r is Err && r->Err_0 == Error::NotFound,
            old(self).wf() && old(self).is_node(parent) ==> match r {
                Ok((b, n)) => {
                    &&& old(self).record(parent).is_dir()
                    &&& exists|i: int| old(self).named(parent, name@, i) && b == old(self).kids(
                        parent,
                    )[i]
                    &&& n@ == old(self).record(b)
                },
                Err(e) => {
                    &&& e == Error::NotFound || e == Error::NotDir || e == Error::Io
                    &&& e == Error::NotFound ==> old(self).record(parent).is_dir() && old(
                        self,
                    ).unnamed(parent, name@)
                    &&& e == Error::NotDir ==> !old(self).record(parent).is_dir()
                    &&& !old(self).record(parent).is_dir() ==> e == Error::NotDir || e == Error::Io
                },
            },
            old(self).valid() && old(self).is_node(parent) && old(self).disk.reliable() && old(
                self,
            ).data(parent).len() <= usize::MAX ==> !(r matches Err(Error::Io)),
    {
        match self.seek(name, parent) {
            Ok((i, b, n)) => {
                proof {
                    if old(self).wf() && old(self).is_node(parent) {
                        assert(old(self).named(parent, name@, i as int));
                    }
                }
                Ok((b, n))
            },
            Err(e) => Err(e),
        }
    }

    /// Appends the block and the record of every entry of the directory at
    /// `parent` to `children`, in the order of the list.
    pub fn child_nodes(&mut self, children: &mut Vec<(u64, Node)>, parent: u64) -> (r: Result<
        (),
        Error,
    >)
        requires
            old(self).disk.inv(),
        ensures
            final(self).disk.inv(),
            final(self).same_as(old(self)),
            old(self).wf() && old(self).is_node(parent) ==> match r {
                Ok(()) => {
                    let kids = old(self).kids(parent);
                    &&& old(self).record(parent).is_dir()
                    &&& final(children)@.len() == old(children)@.len() + kids.len()
                    &&& final(children)@.take(old(children)@.len() as int) == old(children)@
                    &&& forall|i: int|
                        0 <= i < kids.len() ==> (#[trigger] final(children)@[old(children)@.len()
                            + i]).0 == kids[i] && final(children)@[old(children)@.len() + i].1@
                            == old(self).record(kids[i])
                },
                Err(e) => {
                    &&& e == Error::NotFound || e == Error::NotDir || e == Error::Io
                    &&& e == Error::NotFound ==> parent == 0
                    &&& e == Error::NotDir ==> !old(self).record(parent).is_dir()
                    &&& !old(self).record(parent).is_dir() ==> e == Error::NotDir || e == Error::Io
                },
            },
            old(self).valid() && old(self).is_node(parent) && old(self).disk.reliable() && old(
                self,
            ).data(parent).len() <= usize::MAX ==> !(r matches Err(Error::Io)),
    {
        let ghost known = self.wf() && self.is_node(parent);
        proof {
            if known {
                lemma_node_not_free(self.disk@, self.header, self.model@, parent as int);
            }
        }
        if parent == 0 {
            return Err(Error::NotFound);
        }
        let rec = match self.node(parent) {
            Ok((_, n)) => n,
            Err(_) => {
                return Err(Error::Io);
            },
        };
        if !rec.is_dir() {
            return Err(Error::NotDir);
        }
        let kids = match self.child_blocks(parent) {
            Ok(v) => v,
            Err(_) => {
                return Err(Error::Io);
            },
        };
        let count = kids.len();
        let ghost base = children@.len();
        let mut i: usize = 0;
        while i < count
            invariant
                i <= count,
                count == kids@.len(),
                self.disk.inv(),
                self.same_as(old(self)),
                parent != 0,
                base == old(children)@.len(),
                children@.len() == base + i,
                children@.take(base as int) == old(children)@,
                known == (old(self).wf() && old(self).is_node(parent)),
                known ==> kids@ == old(self).kids(parent),
                known ==> old(self).record(parent).is_dir(),
                forall|t: int|
                    0 <= t < i ==> (#[trigger] children@[base + t]).0 == kids@[t] && children@[base
                        + t].1@ == old(self).record(kids@[t]),
            decreases count - i,
        {
            proof {
                if known && old(self).tree_ok() {
                    assert(old(self).dir_ok(parent));
                    let k = old(self).kids(parent)[i as int];
                    assert(old(self).is_node(k));
                    lemma_node_not_free(
                        old(self).disk@,
                        old(self).header,
                        old(self).model@,
                        k as int,
                    );
                }
            }
            let child = match self.node(kids[i]) {
                Ok((_, n)) => n,
                Err(_) => {
                    return Err(Error::Io);
                },
            };
            let ghost before = children@;
            children.push((kids[i], child));
            proof {
                assert(children@.take(base as int) =~= before.take(base as int));
                assert forall|t: int| 0 <= t < i + 1 implies (#[trigger] children@[base + t]).0
                    == kids@[t] && children@[base + t].1@ == old(self).record(kids@[t]) by {
                    if t < i {
                        assert(children@[base + t] == before[base + t]);
                    }
                }
            }
            i += 1;
        }
        Ok(())
    }
}

} // verus!
