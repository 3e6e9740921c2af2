use vstd::prelude::*;
use crate::disk::Disk;
use crate::error::Error;
use crate::frame::{belongs, lemma_chain_frame, lemma_span};
use crate::fs::FileSystem;
use crate::header::Header;
use crate::model::{
    chain_ok, extent_at, extent_holds, layout_ok, link_ok, slot_ok, Chain, Model, Owner,
};
use crate::rewrite::lemma_base_mono;
use crate::span::{piece_in, piece_ok, pieces_joined, reach, within, Piece};

verus! {

/// Copies `count` bytes of `src`, from `from` on, into `dst` at `at`.
pub fn copy_out(dst: &mut [u8], at: usize, src: &[u8; 512], from: usize, count: usize)
    requires
        at + count <= old(dst)@.len(),
        from + count <= 512,
    ensures
        final(dst)@.len() == old(dst)@.len(),
        forall|q: int| at <= q < at + count ==> #[trigger] final(dst)@[q] == src@[from + q - at],
        forall|q: int|
            0 <= q < old(dst)@.len() && !(at <= q < at + count) ==> final(dst)@[q] == old(dst)@[q],
{
    let len = dst.len();
    let mut k: usize = 0;
    while k < count
        invariant
            k <= count,
            at + count <= len,
            len == dst@.len(),
            from + count <= 512,
            dst@.len() == old(dst)@.len(),
            forall|q: int| at <= q < at + k ==> #[trigger] dst@[q] == src@[from + q - at],
            forall|q: int| 0 <= q < dst@.len() && !(at <= q < at + k) ==> dst@[q] == old(dst)@[q],
        decreases count - k,
    {
        dst[at + k] = src[from + k];
        k += 1;
    }
}

/// Copies `count` bytes of `src`, from `at` on, into `dst` at `from`.
pub fn copy_in(dst: &mut [u8; 512], from: usize, src: &[u8], at: usize, count: usize)
    requires
        at + count <= src@.len(),
        from + count <= 512,
    ensures
        forall|q: int| from <= q < from + count ==> #[trigger] final(dst)@[q] == src@[at + q - from],
        forall|q: int| 0 <= q < 512 && !(from <= q < from + count) ==> final(dst)@[q] == old(dst)@[q],
{
    let len = src.len();
    let mut k: usize = 0;
    while k < count
        invariant
            k <= count,
            at + count <= len,
            len == src@.len(),
            from + count <= 512,
            forall|q: int| from <= q < from + k ==> #[trigger] dst@[q] == src@[at + q - from],
            forall|q: int| 0 <= q < 512 && !(from <= q < from + k) ==> dst@[q] == old(dst)@[q],
        decreases count - k,
    {
        dst[from + k] = src[at + k];
        k += 1;
    }
}

/// The bytes `data` after block `x` of the extent that starts at byte
/// `first` of the chain and holds `length` bytes was overwritten with `blk`;
/// `lead` is the number of bytes of the extent before that block.
pub open spec fn patched(data: Seq<u8>, first: int, length: int, lead: int, blk: Seq<u8>) -> Seq<u8> {
    Seq::new(
        data.len(),
        |q: int|
            if first + lead <= q < first + lead + 512 && q < first + length {
                blk[q - first - lead]
            } else {
                data[q]
            },
    )
}

/// The node at `k` with other bytes.
pub open spec fn with_data(m: Model, k: int, data: Seq<u8>) -> Model {
    Model { chains: m.chains.insert(k, Chain { data, ..m.chains[k] }), ..m }
}

/// A node's record is no record of the free list.
pub proof fn lemma_node_not_free(d: Seq<Seq<u8>>, h: Header, m: Model, k: int)
    requires
        layout_ok(d, h, m),
        m.chains.contains_key(k),
    ensures
        k != h.free,
        3 <= k < d.len(),
        m.owner[k] == (Owner::Link { head: k }),
{
    assert(link_ok(d, m.owner, m.free, Owner::FreeLink, false, 0));
    assert(link_ok(d, m.owner, m.chains[k], Owner::Link { head: k }, true, 0));
}

/// The layout stays proper when a block inside an extent of a node is
/// overwritten, the node's bytes changing with it.
pub proof fn lemma_data_write(
    d: Seq<Seq<u8>>,
    h: Header,
    m: Model,
    k: int,
    i: int,
    j: int,
    x: int,
    blk: Seq<u8>,
)
    requires
        layout_ok(d, h, m),
        m.chains.contains_key(k),
        0 <= i < m.chains[k].blocks.len(),
        0 <= j < 16,
        extent_at(d, m.chains[k].blocks[i], j).start <= x,
        512 * (x - extent_at(d, m.chains[k].blocks[i], j).start) < extent_at(
            d,
            m.chains[k].blocks[i],
            j,
        ).length,
        blk.len() == 512,
    ensures
        ({
            let c = m.chains[k];
            let e = extent_at(d, c.blocks[i], j);
            let data2 = patched(
                c.data,
                c.base[16 * i + j],
                e.length as int,
                512 * (x - e.start),
                blk,
            );
            &&& layout_ok(d.update(x, blk), h, with_data(m, k, data2))
            &&& 3 <= x < d.len()
            &&& m.owner[x] == (Owner::Held { node: c.blocks[i], slot: j })
        }),
{
    let c = m.chains[k];
    let o = m.owner;
    let bi = c.blocks[i];
    let e = extent_at(d, bi, j);
    let kk = 16 * i + j;
    let first = c.base[kk];
    let lead = 512 * (x - e.start);
    let data2 = patched(c.data, first, e.length as int, lead, blk);
    let m2 = with_data(m, k, data2);
    let c2 = m2.chains[k];
    let d2 = d.update(x, blk);
    let tag = Owner::Link { head: k };
    assert(link_ok(d, o, c, tag, true, i));
    assert(slot_ok(d, o, c, true, i, j));
    lemma_span(e, x, 0);
    assert(o[x] == (Owner::Held { node: bi, slot: j }));
    assert forall|y: int| 0 <= y < d2.len() implies #[trigger] crate::model::mark_true(d2, m2, y) by {
        assert(crate::model::mark_true(d, m, y));
        if o[y] is Link {
            if o[y]->head == k {
                let t = choose|t: int| 0 <= t < c.blocks.len() && c.blocks[t] == y;
                assert(c2.blocks[t] == y);
            }
        } else if o[y] is Held {
            let node = o[y]->node;
            assert(o[node] is FreeLink || o[node] is Link);
            assert(node != x);
        }
    }
    assert forall|y: int| 0 <= y < d2.len() implies (#[trigger] d2[y]).len() == 512 by {
        assert(d[y].len() == 512);
    }
    // the free list
    assert forall|y: int| 0 <= y < d.len() && belongs(#[trigger] o[y], m.free, Owner::FreeLink) implies d2[y]
        == d[y] && o[y] == o[y] by {
        if y == x {
            let t = choose|t: int| 0 <= t < m.free.blocks.len() && m.free.blocks[t] == bi;
            assert(link_ok(d, o, m.free, Owner::FreeLink, false, t));
        }
    }
    lemma_chain_frame(d, d2, o, o, m.free, Owner::FreeLink, false);
    assert forall|a: int, b: int|
        0 <= a < m.free.blocks.len() && 0 <= b < 16 implies (#[trigger] extent_at(
        d2,
        m.free.blocks[a],
        b,
    )).length % 512 == 0 by {
        assert(link_ok(d, o, m.free, Owner::FreeLink, false, a));
        assert(extent_at(d, m.free.blocks[a], b).length % 512 == 0);
    }
    assert forall|k2: int| #[trigger] m2.chains.contains_key(k2) implies m2.chains[k2].blocks[0]
        == k2 && chain_ok(d2, o, m2.chains[k2], Owner::Link { head: k2 }, true) by {
        if k2 != k {
            let c3 = m.chains[k2];
            let tag3 = Owner::Link { head: k2 };
            assert forall|y: int| 0 <= y < d.len() && belongs(#[trigger] o[y], c3, tag3) implies d2[y]
                == d[y] && o[y] == o[y] by {
                if y == x {
                    let t = choose|t: int| 0 <= t < c3.blocks.len() && c3.blocks[t] == bi;
                    assert(link_ok(d, o, c3, tag3, true, t));
                }
            }
            lemma_chain_frame(d, d2, o, o, c3, tag3, true);
        } else {
            assert forall|i2: int| 0 <= i2 < c2.blocks.len() implies #[trigger] link_ok(
                d2,
                o,
                c2,
                tag,
                true,
                i2,
            ) by {
                let b2 = c.blocks[i2];
                assert(link_ok(d, o, c, tag, true, i2));
                assert(b2 != x);
                assert forall|j2: int| 0 <= j2 < 16 implies #[trigger] slot_ok(
                    d2,
                    o,
                    c2,
                    true,
                    i2,
                    j2,
                ) by {
                    assert(slot_ok(d, o, c, true, i2, j2));
                    let e2 = extent_at(d, b2, j2);
                    let k2b = 16 * i2 + j2;
                    assert forall|y: int, off: int|
                        e2.start <= y && 0 <= off < 512 && 512 * (y - e2.start) + off
                            < e2.length implies #[trigger] d2[y][off] == data2[c.base[k2b] + 512 * (
                    y - e2.start) + off] by {
                        lemma_span(e2, y, off);
                        let q = c.base[k2b] + 512 * (y - e2.start) + off;
                        assert(o[y] == (Owner::Held { node: b2, slot: j2 }));
                        assert(d[y][off] == c.data[q]);
                        lemma_base_mono(d, o, c, tag, true, 0, k2b);
                        lemma_base_mono(d, o, c, tag, true, k2b + 1, 16 * (c.blocks.len() as int));
                        assert(0 <= q < c.data.len());
                        if y == x {
                            assert(b2 == bi && j2 == j);
                            assert(i2 == i);
                        } else if i2 == i && j2 == j {
                        } else if k2b < kk {
                            lemma_base_mono(d, o, c, tag, true, k2b + 1, kk);
                        } else {
                            lemma_base_mono(d, o, c, tag, true, kk + 1, k2b);
                        }
                    }
                }
            }
        }
    }
}

/// The bytes of piece `p` on the disk are those of `data` at its place.
pub open spec fn piece_reads(d: Seq<Seq<u8>>, data: Seq<u8>, offset: int, p: Piece) -> bool {
    &&& offset + p.at + p.count <= data.len()
    &&& p.count >= 1 ==> p.block < d.len()
    &&& forall|q: int|
        p.from <= q < p.from + p.count ==> #[trigger] d[p.block as int][q] == data[offset + p.at + q
            - p.from]
}

/// The bytes of a piece are those of the chain at the piece's place.
pub proof fn lemma_piece_bytes(
    d: Seq<Seq<u8>>,
    o: Map<int, Owner>,
    c: Chain,
    tag: Owner,
    offset: int,
    p: Piece,
)
    requires
        chain_ok(d, o, c, tag, true),
        piece_ok(d, c, offset, p),
        0 <= offset,
    ensures
        piece_reads(d, c.data, offset, p),
{
    let (i, j) = choose|i: int, j: int| piece_in(d, c, offset, p, i, j);
    assert(link_ok(d, o, c, tag, true, i));
    assert(slot_ok(d, o, c, true, i, j));
    let e = extent_at(d, c.blocks[i], j);
    lemma_base_mono(d, o, c, tag, true, 16 * i + j + 1, 16 * (c.blocks.len() as int));
    lemma_base_mono(d, o, c, tag, true, 0, 16 * i + j);
    if p.count >= 1 {
        lemma_span(e, p.block as int, p.from as int);
    }
    assert forall|q: int| p.from <= q < p.from + p.count implies #[trigger] d[p.block as int][q]
        == c.data[offset + p.at + q - p.from] by {
        assert(d[p.block as int][q] == c.data[c.base[16 * i + j] + 512 * (p.block - e.start) + q]);
    }
}

impl<D: Disk> FileSystem<D> {
    /// Reads the bytes of the node at `block` from `offset` on into `buf`,
    /// as many as `buf` takes and the node holds, and returns their number.
    pub fn read_node(&mut self, block: u64, offset: u64, buf: &mut [u8]) -> (r: Result<
        usize,
        Error,
    >)
        requires
            old(self).disk.inv(),
        ensures
            final(self).disk.inv(),
            final(self).same_as(old(self)),
            final(buf)@.len() == old(buf)@.len(),
            old(self).wf() && old(self).is_node(block) ==> match r {
                Ok(n) => {
                    let data = old(self).data(block);
                    &&& n == within(data.len() as int, offset as int, old(buf)@.len() as int)
                    &&& n > 0 ==> final(buf)@.subrange(0, n as int) == data.subrange(
                        offset as int,
                        offset + n,
                    )
                    &&& final(buf)@.subrange(n as int, old(buf)@.len() as int) == old(buf)@.subrange(
                        n as int,
                        old(buf)@.len() as int,
                    )
                },
                Err(e) => e == Error::Io && !old(self).disk.reliable() && final(self).wf(),
            },
    {
        let ghost known = self.wf() && self.is_node(block);
        let ghost c = self.model@.chains[block as int];
        let ghost d = self.disk@;
        let ghost o = self.model@.owner;
        let ghost tag = Owner::Link { head: block as int };
        proof {
            if known {
                lemma_node_not_free(d, self.header, self.model@, block as int);
            }
        }
        let pieces = match self.locate(block, offset, buf.len()) {
            Ok(ps) => ps,
            Err(_) => {
                return Err(Error::Io);
            },
        };
        let count = pieces.len();
        let size = buf.len();
        let mut t: usize = 0;
        let mut n: usize = 0;
        let ghost data = c.data;
        proof {
            if known {
                assert forall|a: int| 0 <= a < pieces@.len() implies #[trigger] piece_reads(
                    d,
                    data,
                    offset as int,
                    pieces@[a],
                ) by {
                    lemma_piece_bytes(d, o, c, tag, offset as int, pieces@[a]);
                }
            }
        }
        while t < count
            invariant
                t <= count,
                count == pieces@.len(),
                self.disk.inv(),
                self.same_as(old(self)),
                d == self.disk@,
                buf@.len() == old(buf)@.len(),
                size == buf@.len(),
                known == (old(self).wf() && old(self).is_node(block)),
                pieces_joined(pieces@, reach(pieces@), buf@.len() as int),
                n == (if t == 0 {
                    0
                } else {
                    pieces@[t - 1].at + pieces@[t - 1].count
                }),
                t < count ==> n == pieces@[t as int].at,
                known ==> data == old(self).data(block),
                known ==> forall|a: int|
                    0 <= a < pieces@.len() ==> #[trigger] piece_reads(
                        d,
                        data,
                        offset as int,
                        pieces@[a],
                    ),
                known ==> forall|q: int| 0 <= q < n ==> buf@[q] == data[offset + q],
                forall|q: int| n <= q < buf@.len() ==> buf@[q] == old(buf)@[q],
            decreases count - t,
        {
            let p = pieces[t];
            let mut tmp: [u8; 512] = [0u8; 512];
            proof {
                if known {
                    assert(piece_reads(d, data, offset as int, pieces@[t as int]));
                }
            }
            if self.disk.read(p.block, &mut tmp).is_err() {
                return Err(Error::Io);
            }
            copy_out(buf, p.at, &tmp, p.from, p.count);
            proof {
                if known {
                    assert(piece_reads(d, data, offset as int, p));
                    assert forall|q: int| 0 <= q < p.at + p.count implies buf@[q] == data[offset
                        + q] by {
                        if q >= p.at {
                            assert(tmp@[p.from + q - p.at] == d[p.block as int][p.from + q - p.at]);
                        }
                    }
                }
                if t + 1 < count {
                    assert(pieces@[t as int].at + pieces@[t as int].count == pieces@[t + 1].at);
                }
            }
            n = p.at + p.count;
            t += 1;
        }
        proof {
            if known {
                assert(n == reach(pieces@));
                if n > 0 {
                    assert(piece_reads(d, data, offset as int, pieces@[count - 1]));
                }
                if n > 0 {
                    assert(buf@.subrange(0, n as int) =~= data.subrange(offset as int, offset + n));
                }
            }
            assert(buf@.subrange(n as int, buf@.len() as int) =~= old(buf)@.subrange(
                n as int,
                buf@.len() as int,
            ));
        }
        Ok(n)
    }
}

} // verus!

verus! {

/// The bytes of chain `c` after the block of piece `p` was overwritten with
/// `blk`.
pub open spec fn piece_patched(d: Seq<Seq<u8>>, c: Chain, offset: int, p: Piece, blk: Seq<u8>) -> Seq<
    u8,
> {
    let (i, j) = choose|i: int, j: int| piece_in(d, c, offset, p, i, j);
    let e = extent_at(d, c.blocks[i], j);
    patched(c.data, c.base[16 * i + j], e.length as int, 512 * (p.block - e.start), blk)
}

/// A piece stays where it is while only bytes inside extents change.
pub proof fn lemma_piece_kept(
    d1: Seq<Seq<u8>>,
    d2: Seq<Seq<u8>>,
    o: Map<int, Owner>,
    c1: Chain,
    c2: Chain,
    tag: Owner,
    offset: int,
    p: Piece,
)
    requires
        chain_ok(d1, o, c1, tag, true),
        !(tag is Held),
        piece_ok(d1, c1, offset, p),
        c2.blocks == c1.blocks,
        c2.base == c1.base,
        d2.len() == d1.len(),
        forall|x: int| 0 <= x < d1.len() && !(#[trigger] o[x] is Held) ==> d2[x] == d1[x],
    ensures
        piece_ok(d2, c2, offset, p),
{
    let (i, j) = choose|i: int, j: int| piece_in(d1, c1, offset, p, i, j);
    assert(link_ok(d1, o, c1, tag, true, i));
    assert(piece_in(d2, c2, offset, p, i, j));
}

impl<D: Disk> FileSystem<D> {
    /// Writes the bytes of `buf` that belong to piece `p` of the node at
    /// `block` into the piece's block.
    pub(crate) fn put_piece(&mut self, block: u64, offset: u64, p: Piece, buf: &[u8]) -> (r: Result<
        (),
        Error,
    >)
        requires
            old(self).disk.inv(),
            1 <= p.count,
            p.from + p.count <= 512,
            p.at + p.count <= buf@.len(),
        ensures
            final(self).disk.inv(),
            old(self).wf() && old(self).is_node(block) && piece_ok(
                old(self).disk@,
                old(self).model@.chains[block as int],
                offset as int,
                p,
            ) ==> match r {
                Ok(()) => {
                    let data = old(self).data(block);
                    &&& final(self).wf()
                    &&& final(self).only_data_changed(old(self), block)
                    &&& offset + p.at + p.count <= data.len()
                    &&& forall|q: int|
                        0 <= q < data.len() ==> #[trigger] final(self).data(block)[q] == (if offset
                            + p.at <= q < offset + p.at + p.count {
                            buf@[q - offset]
                        } else {
                            data[q]
                        })
                },
                Err(e) => e == Error::Io && !old(self).disk.reliable() && final(self).wf(),
            },
    {
        let ghost known = self.wf() && self.is_node(block) && piece_ok(
            self.disk@,
            self.model@.chains[block as int],
            offset as int,
            p,
        );
        let ghost d = self.disk@;
        let ghost m = self.model@;
        let ghost c = m.chains[block as int];
        let ghost tag = Owner::Link { head: block as int };
        let mut tmp: [u8; 512] = [0u8; 512];
        proof {
            if known {
                lemma_piece_bytes(d, m.owner, c, tag, offset as int, p);
            }
        }
        if p.count < 512 {
            if self.disk.read(p.block, &mut tmp).is_err() {
                return Err(Error::Io);
            }
        }
        let ghost was = tmp@;
        copy_in(&mut tmp, p.from, buf, p.at, p.count);
        if self.disk.write(p.block, &tmp).is_err() {
            return Err(Error::Io);
        }
        proof {
            if known {
                let (i, j) = choose|i: int, j: int| piece_in(d, c, offset as int, p, i, j);
                let e = extent_at(d, c.blocks[i], j);
                assert(link_ok(d, m.owner, c, tag, true, i));
                assert(slot_ok(d, m.owner, c, true, i, j));
                lemma_data_write(d, self.header, m, block as int, i, j, p.block as int, tmp@);
                lemma_piece_bytes(d, m.owner, c, tag, offset as int, p);
                let first = c.base[16 * i + j];
                let lead = 512 * (p.block - e.start);
                let data2 = patched(c.data, first, e.length as int, lead, tmp@);
                lemma_base_mono(d, m.owner, c, tag, true, 16 * i + j + 1, 16 * (c.blocks.len() as int));
                lemma_base_mono(d, m.owner, c, tag, true, 0, 16 * i + j);
                assert forall|q: int| 0 <= q < c.data.len() implies #[trigger] data2[q] == (if offset
                    + p.at <= q < offset + p.at + p.count {
                    buf@[q - offset]
                } else {
                    c.data[q]
                }) by {
                    if first + lead <= q < first + lead + 512 && q < first + e.length {
                        let off = q - first - lead;
                        if p.from <= off < p.from + p.count {
                        } else {
                            if p.count < 512 {
                                assert(was[off] == d[p.block as int][off]);
                                assert(d[p.block as int][off] == c.data[first + 512 * (p.block
                                    - e.start) + off]);
                            }
                        }
                    }
                }
                let m2 = with_data(m, block as int, data2);
                assert(m2.chains.dom() =~= m.chains.dom());
                assert forall|x: int|
                    0 <= x < d.len() && !(#[trigger] m.owner[x] is Held && c.blocks.contains(
                        m.owner[x]->node,
                    )) implies self.disk@[x] == d[x] by {
                    if x == p.block {
                        assert(c.blocks[i] == m.owner[x]->node);
                    }
                }
            }
        }
        self.model = Ghost(with_data(m, block as int, piece_patched(d, c, offset as int, p, tmp@)));
        Ok(())
    }

    /// Writes `buf` over the bytes of the node at `block` from `offset` on,
    /// as far as the node holds them, and returns the number written. The
    /// node keeps its length.
    pub fn overwrite(&mut self, block: u64, offset: u64, buf: &[u8]) -> (r: Result<usize, Error>)
        requires
            old(self).disk.inv(),
        ensures
            final(self).disk.inv(),
            old(self).wf() && old(self).is_node(block) ==> match r {
                Ok(n) => {
                    let data = old(self).data(block);
                    &&& final(self).wf()
                    &&& final(self).only_data_changed(old(self), block)
                    &&& n == within(data.len() as int, offset as int, buf@.len() as int)
                    &&& forall|q: int|
                        0 <= q < data.len() ==> #[trigger] final(self).data(block)[q] == (if offset
                            <= q < offset + n {
                            buf@[q - offset]
                        } else {
                            data[q]
                        })
                },
                Err(e) => e == Error::Io && !old(self).disk.reliable() && final(self).wf(),
            },
    {
        let ghost known = self.wf() && self.is_node(block);
        let ghost c = self.model@.chains[block as int];
        let ghost data = c.data;
        let ghost tag = Owner::Link { head: block as int };
        proof {
            if known {
                lemma_node_not_free(self.disk@, self.header, self.model@, block as int);
            }
        }
        let pieces = match self.locate(block, offset, buf.len()) {
            Ok(ps) => ps,
            Err(_) => {
                return Err(Error::Io);
            },
        };
        let count = pieces.len();
        let size = buf.len();
        let mut t: usize = 0;
        let mut n: usize = 0;
        proof {
            if known {
                assert(self.model@.chains.dom() =~= old(self).model@.chains.dom());
            }
        }
        while t < count
            invariant
                t <= count,
                count == pieces@.len(),
                self.disk.inv(),
                old(self).disk.inv(),
                size == buf@.len(),
                known == (old(self).wf() && old(self).is_node(block)),
                c == old(self).model@.chains[block as int],
                data == c.data,
                tag == (Owner::Link { head: block as int }),
                pieces_joined(pieces@, reach(pieces@), buf@.len() as int),
                n == (if t == 0 {
                    0
                } else {
                    pieces@[t - 1].at + pieces@[t - 1].count
                }),
                t < count ==> n == pieces@[t as int].at,
                known ==> self.wf() && self.is_node(block),
                known ==> self.only_data_changed(old(self), block),
                known ==> forall|a: int|
                    0 <= a < pieces@.len() ==> piece_ok(
                        self.disk@,
                        self.model@.chains[block as int],
                        offset as int,
                        #[trigger] pieces@[a],
                    ),
                known && n > 0 ==> offset + n <= data.len(),
                known ==> forall|q: int|
                    0 <= q < data.len() ==> #[trigger] self.data(block)[q] == (if offset <= q < offset
                        + n {
                        buf@[q - offset]
                    } else {
                        data[q]
                    }),
            decreases count - t,
        {
            let p = pieces[t];
            let ghost pre = *self;
            if self.put_piece(block, offset, p, buf).is_err() {
                return Err(Error::Io);
            }
            proof {
                if known {
                    assert(piece_ok(pre.disk@, pre.model@.chains[block as int], offset as int, p));
                    let c1 = pre.model@.chains[block as int];
                    let c2 = self.model@.chains[block as int];
                    assert forall|a: int| 0 <= a < pieces@.len() implies piece_ok(
                        self.disk@,
                        c2,
                        offset as int,
                        #[trigger] pieces@[a],
                    ) by {
                        lemma_piece_kept(
                            pre.disk@,
                            self.disk@,
                            pre.model@.owner,
                            c1,
                            c2,
                            tag,
                            offset as int,
                            pieces@[a],
                        );
                    }
                    assert(self.model@.chains.dom() =~= old(self).model@.chains.dom());
                    assert forall|q: int| 0 <= q < data.len() implies #[trigger] self.data(block)[q]
                        == (if offset <= q < offset + p.at + p.count {
                        buf@[q - offset]
                    } else {
                        data[q]
                    }) by {
                        assert(pre.data(block)[q] == (if offset <= q < offset + n {
                            buf@[q - offset]
                        } else {
                            data[q]
                        }));
                    }
                }
                if t + 1 < count {
                    assert(pieces@[t as int].at + pieces@[t as int].count == pieces@[t + 1].at);
                }
            }
            n = p.at + p.count;
            t += 1;
        }
        Ok(n)
    }
}

} // verus!
