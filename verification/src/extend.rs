use vstd::prelude::*;
use crate::frame::{belongs, lemma_chain_frame, lemma_span, mark, shift};
use crate::header::Header;
use crate::model::{
    chain_ok, extent_at, extent_holds, extent_owned, free_aligned, layout_ok, link_ok, slot_ok,
    Chain, Model, Owner,
};
use crate::node::{decode_node, Extent};
use crate::rewrite::{lemma_base_mono, lemma_other_kept, lemma_rewrite, marks_moved};

verus! {

/// The other chains and the header stay proper when a record of the node at
/// `k` is rewritten and marks move only on loose blocks and inside that
/// record's extents.
pub proof fn lemma_layout_around_node(
    d: Seq<Seq<u8>>,
    h: Header,
    m: Model,
    k: int,
    b: int,
    bytes: Seq<u8>,
    o2: Map<int, Owner>,
    c2: Chain,
)
    requires
        layout_ok(d, h, m),
        m.chains.contains_key(k),
        3 <= b < d.len(),
        m.owner[b] == (Owner::Link { head: k }),
        bytes.len() == 512,
        marks_moved(m.owner, o2, d.len() as int, b),
        c2.blocks[0] == k,
        chain_ok(d.update(b, bytes), o2, c2, Owner::Link { head: k }, true),
        crate::model::marks_true(
            d.update(b, bytes),
            Model { owner: o2, free: m.free, chains: m.chains.insert(k, c2) },
        ),
    ensures
        layout_ok(d.update(b, bytes), h, Model { owner: o2, free: m.free, chains: m.chains.insert(k, c2) }),
{
    let d2 = d.update(b, bytes);
    let m2 = Model { owner: o2, free: m.free, chains: m.chains.insert(k, c2) };
    let o = m.owner;
    assert forall|x: int| 0 <= x < d2.len() implies (#[trigger] d2[x]).len() == 512 by {
        assert(d[x].len() == 512);
    }
    assert forall|x: int| 0 <= x < 3 implies #[trigger] o2[x] == Owner::Reserved by {
        assert(o[x] == Owner::Reserved);
    }
    lemma_other_kept(d, o, o2, b, bytes, m.free, Owner::FreeLink, false);
    assert forall|i2: int, j: int|
        0 <= i2 < m.free.blocks.len() && 0 <= j < 16 implies (#[trigger] extent_at(
        d2,
        m.free.blocks[i2],
        j,
    )).length % 512 == 0 by {
        assert(link_ok(d, o, m.free, Owner::FreeLink, false, i2));
        assert(extent_at(d, m.free.blocks[i2], j).length % 512 == 0);
    }
    assert(link_ok(d, o, m.chains[h.root as int], Owner::Link { head: h.root as int }, true, 0));
    assert forall|k2: int| #[trigger] m2.chains.contains_key(k2) implies m2.chains[k2].blocks[0]
        == k2 && chain_ok(d2, o2, m2.chains[k2], Owner::Link { head: k2 }, true) by {
        if k2 != k {
            lemma_other_kept(d, o, o2, b, bytes, m.chains[k2], Owner::Link { head: k2 }, true);
        }
    }
}

/// The bytes of a chain after its last extent, which held `had` bytes, grew
/// to `e`: the old bytes, then what the blocks of `e` hold behind them.
pub open spec fn extended(d: Seq<Seq<u8>>, data: Seq<u8>, had: int, e: Extent) -> Seq<u8> {
    Seq::new(
        (data.len() + e.length - had) as nat,
        |q: int|
            if q < data.len() {
                data[q]
            } else {
                d[e.start + (q - data.len() + had) / 512][(q - data.len() + had) % 512]
            },
    )
}

/// The node at `k` after the extent in slot `j` of its record `i`, the last
/// one in use, grew to `e`.
pub open spec fn node_after_extend(d: Seq<Seq<u8>>, m: Model, k: int, i: int, j: int, e: Extent) -> Model {
    let c = m.chains[k];
    let old_e = extent_at(d, c.blocks[i], j);
    Model {
        owner: if old_e.length == 0 {
            mark(m.owner, e.start as int, e.start + e.span(), Owner::Held { node: c.blocks[i], slot: j })
        } else {
            m.owner
        },
        free: m.free,
        chains: m.chains.insert(
            k,
            Chain {
                blocks: c.blocks,
                base: shift(c.base, 16 * i + j, e.length - old_e.length),
                data: extended(d, c.data, old_e.length as int, e),
            },
        ),
    }
}

/// The layout stays proper when the last extent in use of a node grows
/// within its blocks, or when a run of loose blocks becomes the node's next
/// extent.
pub proof fn lemma_node_extend(
    d: Seq<Seq<u8>>,
    h: Header,
    m: Model,
    k: int,
    i: int,
    j: int,
    e: Extent,
    bytes: Seq<u8>,
)
    requires
        layout_ok(d, h, m),
        m.chains.contains_key(k),
        i == m.chains[k].blocks.len() - 1,
        0 <= j < 16,
        forall|j2: int|
            j < j2 < 16 ==> (#[trigger] extent_at(d, m.chains[k].blocks[i], j2)).length == 0,
        bytes.len() == 512,
        decode_node(bytes).next == 0,
        decode_node(bytes).extents == decode_node(d[m.chains[k].blocks[i]]).extents.update(j, e),
        ({
            let old_e = extent_at(d, m.chains[k].blocks[i], j);
            &&& m.chains[k].total() + e.length - old_e.length <= u64::MAX
            &&& e.length > old_e.length
            &&& old_e.length > 0 ==> e.start == old_e.start && e.span() == old_e.span()
            &&& old_e.length == 0 ==> {
                &&& 3 <= e.start
                &&& e.start + e.span() <= d.len()
                &&& forall|x: int|
                    e.start <= x < e.start + e.span() ==> #[trigger] m.owner[x] == Owner::Loose
            }
        }),
    ensures
        layout_ok(d.update(m.chains[k].blocks[i], bytes), h, node_after_extend(d, m, k, i, j, e)),
{
    let c = m.chains[k];
    let o = m.owner;
    let b = c.blocks[i];
    let old_e = extent_at(d, b, j);
    let m2 = node_after_extend(d, m, k, i, j, e);
    let c2 = m2.chains[k];
    let o2 = m2.owner;
    let d2 = d.update(b, bytes);
    let tag = Owner::Link { head: k };
    let kk = 16 * i + j;
    assert(link_ok(d, o, c, tag, true, i));
    assert(slot_ok(d, o, c, true, i, j));
    lemma_tail_sums(d, o, c, tag, i, j, 16);
    assert(c.base[kk + 1] == c.total());
    lemma_base_mono(d, o, c, tag, true, 0, kk);
    assert(d2[b] == bytes);
    assert forall|j2: int| 0 <= j2 < 16 implies #[trigger] slot_ok(d2, o2, c2, true, i, j2) by {
        assert(slot_ok(d, o, c, true, i, j2));
        let e2 = extent_at(d, b, j2);
        if j2 == j {
            assert(extent_at(d2, b, j2) == e);
            assert forall|x: int| e.start <= x < e.start + e.span() implies #[trigger] o2[x] == (
            Owner::Held { node: b, slot: j }) && x != b by {
                if old_e.length > 0 {
                    assert(o[x] == (Owner::Held { node: b, slot: j }));
                } else {
                    assert(o[x] == Owner::Loose);
                }
            }
            assert forall|x: int, off: int|
                e.start <= x && 0 <= off < 512 && 512 * (x - e.start) + off
                    < e.length implies #[trigger] d2[x][off] == c2.data[c2.base[kk] + 512 * (x
                - e.start) + off] by {
                lemma_span(e, x, off);
                assert(o2[x] == (Owner::Held { node: b, slot: j }));
                let r = 512 * (x - e.start) + off;
                if r < old_e.length {
                    assert(d[x][off] == c.data[c.base[kk] + r]);
                } else {
                    let q = c.base[kk] + r;
                    assert(q - c.data.len() + old_e.length == r);
                    assert(r / 512 == x - e.start && r % 512 == off);
                }
            }
        } else {
            assert(extent_at(d2, b, j2) == e2);
            if j2 > j {
                assert(e2.length == 0);
                lemma_tail_sums(d, o, c, tag, i, j, j2);
                lemma_tail_sums(d, o, c, tag, i, j, j2 + 1);
            } else {
                if e2.length > 0 {
                    assert forall|x: int| e2.start <= x < e2.start + e2.span() implies #[trigger] o2[x]
                        == (Owner::Held { node: b, slot: j2 }) by {
                        assert(o[x] == (Owner::Held { node: b, slot: j2 }));
                    }
                }
                lemma_base_mono(d, o, c, tag, true, 16 * i + j2 + 1, kk);
                lemma_base_mono(d, o, c, tag, true, 0, 16 * i + j2);
                assert forall|x: int, off: int|
                    e2.start <= x && 0 <= off < 512 && 512 * (x - e2.start) + off
                        < e2.length implies #[trigger] d2[x][off] == c2.data[c2.base[16 * i + j2]
                    + 512 * (x - e2.start) + off] by {
                    lemma_span(e2, x, off);
                    assert(o[x] == (Owner::Held { node: b, slot: j2 }));
                    assert(d[x][off] == c.data[c.base[16 * i + j2] + 512 * (x - e2.start) + off]);
                }
            }
        }
    }
    assert(marks_moved(o, o2, d.len() as int, b));
    assert(c2.total() == c.total() + e.length - old_e.length);
    lemma_base_mono(d, o, c, tag, true, 16 * i, 16 * (c.blocks.len() as int));
    assert forall|p: int| 0 <= p < c.base[16 * i] implies c2.data[p] == c.data[p] by {}
    lemma_rewrite(d, o, c, tag, true, i, bytes, o2, c2);
    assert forall|x: int| 0 <= x < d2.len() implies #[trigger] crate::model::mark_true(d2, m2, x) by {
        assert(crate::model::mark_true(d, m, x));
        if o2[x] != o[x] {
            assert(extent_at(d2, b, j) == e);
        } else if o[x] is Link {
            if o[x]->head == k {
                let t = choose|t: int| 0 <= t < c.blocks.len() && c.blocks[t] == x;
                assert(c2.blocks[t] == x);
            }
        } else if o[x] is Held {
            let node = o[x]->node;
            let slot = o[x]->slot;
            assert(o[node] is FreeLink || o[node] is Link);
            assert(o2[node] == o[node]);
            if node == b {
                assert(slot_ok(d, o, c, true, i, slot));
                if slot == j {
                    assert(extent_at(d2, b, j) == e);
                } else {
                    assert(extent_at(d2, b, slot) == extent_at(d, b, slot));
                }
            }
        }
    }
    lemma_layout_around_node(d, h, m, k, b, bytes, o2, c2);
}

/// Behind slot `j` of a record whose later slots are empty, the sums stand
/// still.
pub proof fn lemma_tail_sums(
    d: Seq<Seq<u8>>,
    o: Map<int, Owner>,
    c: Chain,
    tag: Owner,
    i: int,
    j: int,
    t: int,
)
    requires
        0 <= i < c.blocks.len(),
        0 <= j < t <= 16,
        link_ok(d, o, c, tag, true, i),
        forall|j2: int| j < j2 < 16 ==> (#[trigger] extent_at(d, c.blocks[i], j2)).length == 0,
    ensures
        c.base[16 * i + t] == c.base[16 * i + j + 1],
    decreases t,
{
    if t > j + 1 {
        lemma_tail_sums(d, o, c, tag, i, j, t - 1);
        assert(slot_ok(d, o, c, true, i, t - 1));
        assert(extent_at(d, c.blocks[i], t - 1).length == 0);
    }
}

} // verus!
