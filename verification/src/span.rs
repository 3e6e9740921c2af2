use vstd::prelude::*;
use crate::disk::Disk;
use crate::error::Error;
use crate::fs::FileSystem;
use crate::model::{chain_ok, extent_at, extent_holds, link_ok, slot_ok, Chain, Owner};
use crate::node::Node;
use crate::rewrite::lemma_base_mono;

verus! {

/// A stretch of a node's bytes that lies within one block: `count` bytes
/// from byte `from` of block `block`, which stand at `at` in the buffer of
/// the read or write at hand.
#[derive(Clone, Copy, Debug)]
pub struct Piece {
    pub block: u64,
    pub from: usize,
    pub count: usize,
    pub at: usize,
}

/// The piece lies inside the extent in slot `j` of record `i` of chain `c`,
/// and its first byte is byte `offset + p.at` of the chain.
pub open spec fn piece_in(d: Seq<Seq<u8>>, c: Chain, offset: int, p: Piece, i: int, j: int) -> bool {
    let e = extent_at(d, c.blocks[i], j);
    &&& 0 <= i < c.blocks.len()
    &&& 0 <= j < 16
    &&& e.start <= p.block
    &&& p.from + p.count <= 512
    &&& 512 * (p.block - e.start) + p.from + p.count <= e.length
    &&& c.base[16 * i + j] + 512 * (p.block - e.start) + p.from == offset + p.at
}

/// The piece lies within one extent of the chain, at the bytes it is for.
pub open spec fn piece_ok(d: Seq<Seq<u8>>, c: Chain, offset: int, p: Piece) -> bool {
    exists|i: int, j: int| piece_in(d, c, offset, p, i, j)
}

/// The pieces follow one another in the buffer, from its start up to `done`,
/// each within one block.
pub open spec fn pieces_joined(ps: Seq<Piece>, done: int, want: int) -> bool {
    &&& 0 <= done <= want
    &&& ps.len() == 0 ==> done == 0
    &&& ps.len() > 0 ==> ps[0].at == 0 && ps[ps.len() - 1].at + ps[ps.len() - 1].count == done
    &&& forall|t: int|
        0 <= t < ps.len() ==> 1 <= (#[trigger] ps[t]).count && ps[t].from + ps[t].count <= 512
            && ps[t].at + ps[t].count <= done
    &&& forall|t: int, u: int|
        0 <= t && u == t + 1 && u < ps.len() ==> (#[trigger] ps[t]).at + ps[t].count == (
        #[trigger] ps[u]).at
}

/// The number of bytes that the pieces cover.
pub open spec fn reach(ps: Seq<Piece>) -> int {
    if ps.len() == 0 {
        0
    } else {
        ps[ps.len() - 1].at + ps[ps.len() - 1].count
    }
}

/// How many of `want` bytes from `offset` on a chain of `total` bytes holds.
pub open spec fn within(total: int, offset: int, want: int) -> int {
    if total <= offset {
        0
    } else if total - offset < want {
        total - offset
    } else {
        want
    }
}

/// Where the walk stands: `done` bytes are located and `pos` bytes of the
/// chain lie behind.
pub open spec fn cursor_ok(pos: int, offset: int, done: int, want: int) -> bool {
    &&& 0 <= done <= want
    &&& pos <= offset ==> done == 0
    &&& pos > offset ==> offset + done <= pos && (done < want ==> offset + done == pos)
}

impl<D: Disk> FileSystem<D> {
    /// Finds where the bytes `[offset, offset + want)` of the chain at
    /// `block` lie on the disk, as far as the chain holds them.
    pub fn locate(&mut self, block: u64, offset: u64, want: usize) -> (r: Result<Vec<Piece>, Error>)
        requires
            old(self).disk.inv(),
        ensures
            final(self).disk.inv(),
            final(self).same_as(old(self)),
            r matches Ok(ps) ==> pieces_joined(ps@, reach(ps@), want as int),
            old(self).wf() && old(self).has_chain(block) ==> match r {
                Ok(ps) => {
                    let c = old(self).chain(block);
                    &&& pieces_joined(ps@, within(c.total(), offset as int, want as int), want as int)
                    &&& forall|t: int|
                        0 <= t < ps@.len() ==> piece_ok(
                            old(self).disk@,
                            c,
                            offset as int,
                            #[trigger] ps@[t],
                        )
                },
                Err(e) => e == Error::Io,
            },
            old(self).wf() && old(self).is_node(block) && old(self).disk.reliable() ==> r is Ok,
    {
        proof {
            if self.wf() && self.is_node(block) {
                crate::content::lemma_node_not_free(
                    self.disk@,
                    self.header,
                    self.model@,
                    block as int,
                );
            }
        }
        let limit = self.disk.blocks();
        let ghost c = self.chain(block);
        let ghost known = self.wf() && self.has_chain(block);
        let ghost tag = if block == self.header.free {
            Owner::FreeLink
        } else {
            Owner::Link { head: block as int }
        };
        let ghost content = block != self.header.free;
        let ghost sure = known && content && self.disk.reliable();
        let ghost d = self.disk@;
        let ghost o = self.model@.owner;
        let mut pieces: Vec<Piece> = Vec::new();
        let mut b = block;
        let mut steps: u64 = 0;
        let mut pos: u64 = 0;
        let mut done: usize = 0;
        proof {
            if known {
                assert(link_ok(d, o, c, tag, content, 0));
            }
        }
        while b != 0 && done < want
            invariant
                self.disk.inv(),
                self.same_as(old(self)),
                d == self.disk@,
                o == self.model@.owner,
                limit == d.len(),
                steps <= limit,
                known == (old(self).wf() && old(self).has_chain(block)),
                sure == (known && content && old(self).disk.reliable()),
                old(self).wf() && old(self).is_node(block) ==> content,
                known ==> chain_ok(d, o, c, tag, content),
                d == self.disk@,
                o == self.model@.owner,
                c == old(self).chain(block),
                pieces_joined(pieces@, done as int, want as int),
                known ==> chain_ok(d, o, c, tag, content),
                known ==> steps <= c.blocks.len(),
                known && b != 0 ==> steps < c.blocks.len() && b == c.blocks[steps as int],
                known && b == 0 ==> steps == c.blocks.len(),
                known ==> pos == c.base[16 * steps],
                known ==> cursor_ok(pos as int, offset as int, done as int, want as int),
                known ==> forall|t: int|
                    0 <= t < pieces@.len() ==> piece_ok(d, c, offset as int, #[trigger] pieces@[t]),
            decreases limit - steps,
        {
            proof {
                if known {
                    crate::rewrite::lemma_chain_short(d, o, c, tag, content);
                    assert(link_ok(d, o, c, tag, content, steps as int));
                }
            }
            if steps >= limit {
                return Err(Error::Io);
            }
            let rec = match self.node(b) {
                Ok((_, rec)) => rec,
                Err(_) => {
                    return Err(Error::Io);
                },
            };
            proof {
                if known {
                    assert(link_ok(d, o, c, tag, content, steps as int));
                    if steps + 1 < c.blocks.len() {
                        assert(link_ok(d, o, c, tag, content, steps + 1));
                    }
                }
            }
            let mut j: usize = 0;
            while j < 16
                invariant
                    j <= 16,
                    self.disk.inv(),
                    self.same_as(old(self)),
                    d == self.disk@,
                    o == self.model@.owner,
                    rec@ == self.record(b),
                    known == (old(self).wf() && old(self).has_chain(block)),
                sure == (known && content && old(self).disk.reliable()),
                old(self).wf() && old(self).is_node(block) ==> content,
                known ==> chain_ok(d, o, c, tag, content),
                d == self.disk@,
                o == self.model@.owner,
                    pieces_joined(pieces@, done as int, want as int),
                    known ==> chain_ok(d, o, c, tag, content),
                    known ==> steps < c.blocks.len() && b == c.blocks[steps as int],
                    known ==> link_ok(d, o, c, tag, content, steps as int),
                    known ==> pos == c.base[16 * steps + j],
                    known ==> cursor_ok(pos as int, offset as int, done as int, want as int),
                    known ==> forall|t: int|
                        0 <= t < pieces@.len() ==> piece_ok(d, c, offset as int, #[trigger] pieces@[t]),
                decreases 16 - j,
            {
                let e = rec.extents[j];
                proof {
                    if known {
                        assert(slot_ok(d, o, c, content, steps as int, j as int));
                    }
                }
                proof {
                    if known && content {
                        lemma_base_mono(
                            d,
                            o,
                            c,
                            tag,
                            content,
                            16 * steps + j + 1,
                            16 * (c.blocks.len() as int),
                        );
                        lemma_base_mono(d, o, c, tag, content, 0, 16 * steps + j);
                    }
                }
                let end = match pos.checked_add(e.length) {
                    Some(v) => v,
                    None => {
                        return Err(Error::Io);
                    },
                };
                if end > offset && done < want {
                    let cur = match offset.checked_add(done as u64) {
                        Some(v) => v,
                        None => {
                            return Err(Error::Io);
                        },
                    };
                    if cur < pos || cur > end {
                        return Err(Error::Io);
                    }
                    let mut rel: u64 = cur - pos;
                    while rel < e.length && done < want
                        invariant
                            rel <= e.length,
                            self.disk.inv(),
                            self.same_as(old(self)),
                            known == (old(self).wf() && old(self).has_chain(block)),
                sure == (known && content && old(self).disk.reliable()),
                old(self).wf() && old(self).is_node(block) ==> content,
                known ==> chain_ok(d, o, c, tag, content),
                d == self.disk@,
                o == self.model@.owner,
                            known ==> cursor_ok(pos as int, offset as int, 0, want as int) || pos
                                + rel == offset + done,
                            pos + e.length == end,
                            end <= u64::MAX,
                            e == rec@.extents[j as int],
                            j < 16,
                            pieces_joined(pieces@, done as int, want as int),
                            known ==> steps < c.blocks.len() && b == c.blocks[steps as int],
                            known ==> e == extent_at(d, b as int, j as int),
                            known ==> pos == c.base[16 * steps + j],
                            known ==> slot_ok(d, o, c, content, steps as int, j as int),
                            pos + rel == offset + done,
                            known ==> forall|t: int|
                                0 <= t < pieces@.len() ==> piece_ok(
                                    d,
                                    c,
                                    offset as int,
                                    #[trigger] pieces@[t],
                                ),
                        decreases e.length - rel,
                    {
                        let t = rel / 512;
                        let from = (rel % 512) as usize;
                        let left = e.length - rel;
                        let room: usize = 512 - from;
                        let avail: usize = if left < room as u64 {
                            left as usize
                        } else {
                            room
                        };
                        let count: usize = if avail < want - done {
                            avail
                        } else {
                            want - done
                        };
                        proof {
                            if known {
                                assert(crate::model::extent_owned(
                                    o,
                                    d.len() as int,
                                    b as int,
                                    j as int,
                                    e,
                                ));
                            }
                        }
                        let x = match e.start.checked_add(t) {
                            Some(v) => v,
                            None => {
                                return Err(Error::Io);
                            },
                        };
                        let p = Piece { block: x, from, count, at: done };
                        let ghost before = pieces@;
                        pieces.push(p);
                        proof {
                            if known {
                                assert(piece_in(d, c, offset as int, p, steps as int, j as int));
                                assert forall|k: int| 0 <= k < pieces@.len() implies piece_ok(
                                    d,
                                    c,
                                    offset as int,
                                    #[trigger] pieces@[k],
                                ) by {
                                    if k < before.len() {
                                        assert(pieces@[k] == before[k]);
                                    }
                                }
                            }
                            assert forall|k: int, u: int|
                                0 <= k && u == k + 1 && u < pieces@.len() implies (
                            #[trigger] pieces@[k]).at + pieces@[k].count == (
                            #[trigger] pieces@[u]).at by {
                                if u < before.len() {
                                    assert(before[k].at + before[k].count == before[u].at);
                                }
                            }
                        }
                        done += count;
                        rel += count as u64;
                    }
                }
                pos = end;
                j += 1;
            }
            b = rec.next;
            steps += 1;
        }
        proof {
            if known {
                lemma_base_mono(d, o, c, tag, content, 16 * steps, 16 * (c.blocks.len() as int));
            }
        }
        Ok(pieces)
    }
}

} // verus!
