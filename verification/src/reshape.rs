use vstd::prelude::*;
use crate::frame::{belongs, lemma_chain_frame, lemma_span, mark};
use crate::header::Header;
use crate::model::{
    chain_ok, extent_at, extent_holds, extent_owned, layout_ok, link_ok, mark_true, slot_ok, Chain,
    Model, Owner,
};
use crate::node::{decode_node, Extent};
use crate::rewrite::lemma_base_mono;

verus! {

/// A block is part of at most one chain.
pub proof fn lemma_belongs_once(
    d: Seq<Seq<u8>>,
    o: Map<int, Owner>,
    c1: Chain,
    t1: Owner,
    c2: Chain,
    t2: Owner,
    content2: bool,
    x: int,
)
    requires
        chain_ok(d, o, c1, t1, true),
        chain_ok(d, o, c2, t2, content2),
        t1 != t2,
        !(t1 is Held),
        !(t2 is Held),
        belongs(o[x], c1, t1),
    ensures
        !belongs(o[x], c2, t2),
{
    if o[x] is Held && belongs(o[x], c2, t2) {
        let node = o[x]->node;
        let a = choose|a: int| 0 <= a < c1.blocks.len() && c1.blocks[a] == node;
        let b = choose|b: int| 0 <= b < c2.blocks.len() && c2.blocks[b] == node;
        assert(link_ok(d, o, c1, t1, true, a));
        assert(link_ok(d, o, c2, t2, content2, b));
    }
}

/// The rest of the layout stays proper when the disk and the marks change
/// only on loose blocks and on blocks of the node at `k`, and the node's new
/// chain is proper.
pub proof fn lemma_layout_around(
    d: Seq<Seq<u8>>,
    d2: Seq<Seq<u8>>,
    h: Header,
    m: Model,
    k: int,
    o2: Map<int, Owner>,
    c2: Chain,
)
    requires
        layout_ok(d, h, m),
        m.chains.contains_key(k),
        d2.len() == d.len(),
        forall|x: int| 0 <= x < d2.len() ==> (#[trigger] d2[x]).len() == 512,
        forall|x: int|
            0 <= x < d.len() && (d2[x] != d[x] || o2[x] != m.owner[x]) ==> #[trigger] m.owner[x]
                == Owner::Loose || belongs(m.owner[x], m.chains[k], Owner::Link { head: k }),
        c2.blocks[0] == k,
        chain_ok(d2, o2, c2, Owner::Link { head: k }, true),
        crate::model::marks_true(d2, Model { owner: o2, free: m.free, chains: m.chains.insert(k, c2) }),
    ensures
        layout_ok(d2, h, Model { owner: o2, free: m.free, chains: m.chains.insert(k, c2) }),
{
    let m2 = Model { owner: o2, free: m.free, chains: m.chains.insert(k, c2) };
    let o = m.owner;
    let c = m.chains[k];
    let tag = Owner::Link { head: k };
    assert forall|x: int| 0 <= x < 3 implies #[trigger] o2[x] == Owner::Reserved && d2[x] == d[x] by {
        assert(o[x] == Owner::Reserved);
        if o[x] is Held {
        }
    }
    assert(o[2] == Owner::Reserved);
    assert(d2[2] == d[2]);
    assert forall|x: int|
        0 <= x < d.len() && belongs(#[trigger] o[x], m.free, Owner::FreeLink) implies d2[x] == d[x]
        && o2[x] == o[x] by {
        if belongs(o[x], c, tag) {
            lemma_belongs_once(d, o, c, tag, m.free, Owner::FreeLink, false, x);
        }
    }
    lemma_chain_frame(d, d2, o, o2, m.free, Owner::FreeLink, false);
    assert forall|i2: int, j: int|
        0 <= i2 < m.free.blocks.len() && 0 <= j < 16 implies (#[trigger] extent_at(
        d2,
        m.free.blocks[i2],
        j,
    )).length % 512 == 0 by {
        assert(link_ok(d, o, m.free, Owner::FreeLink, false, i2));
        assert(belongs(o[m.free.blocks[i2]], m.free, Owner::FreeLink));
        assert(extent_at(d, m.free.blocks[i2], j).length % 512 == 0);
    }
    assert forall|k2: int| #[trigger] m2.chains.contains_key(k2) implies m2.chains[k2].blocks[0]
        == k2 && chain_ok(d2, o2, m2.chains[k2], Owner::Link { head: k2 }, true) by {
        if k2 != k {
            let c3 = m.chains[k2];
            let t3 = Owner::Link { head: k2 };
            assert forall|x: int| 0 <= x < d.len() && belongs(#[trigger] o[x], c3, t3) implies d2[x]
                == d[x] && o2[x] == o[x] by {
                if belongs(o[x], c, tag) {
                    lemma_belongs_once(d, o, c, tag, c3, t3, true, x);
                }
            }
            lemma_chain_frame(d, d2, o, o2, c3, t3, true);
        }
    }
}

/// The layout stays proper when a loose block is overwritten.
pub proof fn lemma_loose_write(d: Seq<Seq<u8>>, h: Header, m: Model, x: int, bytes: Seq<u8>)
    requires
        layout_ok(d, h, m),
        0 <= x < d.len(),
        m.owner[x] == Owner::Loose,
        bytes.len() == 512,
    ensures
        layout_ok(d.update(x, bytes), h, m),
{
    let d2 = d.update(x, bytes);
    let k = h.root as int;
    assert forall|y: int| 0 <= y < d2.len() implies (#[trigger] d2[y]).len() == 512 by {
        assert(d[y].len() == 512);
    }
    assert forall|y: int|
        0 <= y < d.len() && belongs(#[trigger] m.owner[y], m.chains[k], Owner::Link { head: k }) implies d2[y]
        == d[y] && m.owner[y] == m.owner[y] by {}
    lemma_chain_frame(d, d2, m.owner, m.owner, m.chains[k], Owner::Link { head: k }, true);
    assert(m.chains.insert(k, m.chains[k]) =~= m.chains);
    assert forall|y: int| 0 <= y < d2.len() implies #[trigger] mark_true(d2, m, y) by {
        assert(mark_true(d, m, y));
    }
    lemma_layout_around(d, d2, h, m, k, m.owner, m.chains[k]);
}

/// The node at `k` after a loose block, holding an empty record, became its
/// last record.
pub open spec fn node_after_append(m: Model, k: int, cont: int) -> Model {
    let c = m.chains[k];
    Model {
        owner: mark(m.owner, cont, cont + 1, Owner::Link { head: k }),
        free: m.free,
        chains: m.chains.insert(
            k,
            Chain {
                blocks: c.blocks.push(cont),
                base: c.base + Seq::new(16, |t: int| c.total()),
                data: c.data,
            },
        ),
    }
}

/// The layout stays proper when the last record of a node is made to name a
/// loose block that holds an empty record.
pub proof fn lemma_node_append(
    d: Seq<Seq<u8>>,
    h: Header,
    m: Model,
    k: int,
    cont: int,
    bytes: Seq<u8>,
)
    requires
        layout_ok(d, h, m),
        m.chains.contains_key(k),
        3 <= cont < d.len(),
        m.owner[cont] == Owner::Loose,
        decode_node(d[cont]).next == 0,
        forall|j: int| 0 <= j < 16 ==> (#[trigger] extent_at(d, cont, j)).length == 0,
        bytes.len() == 512,
        decode_node(bytes).next == cont,
        decode_node(bytes).extents == decode_node(d[m.chains[k].blocks.last()]).extents,
    ensures
        layout_ok(d.update(m.chains[k].blocks.last(), bytes), h, node_after_append(m, k, cont)),
{
    let c = m.chains[k];
    let o = m.owner;
    let n = c.blocks.len() as int;
    let i = n - 1;
    let b = c.blocks[i];
    let m2 = node_after_append(m, k, cont);
    let c2 = m2.chains[k];
    let o2 = m2.owner;
    let d2 = d.update(b, bytes);
    let tag = Owner::Link { head: k };
    assert(link_ok(d, o, c, tag, true, i));
    assert(link_ok(d, o, c, tag, true, 0));
    assert(c2.blocks.no_duplicates()) by {
        assert forall|a: int, e: int|
            0 <= a < c2.blocks.len() && 0 <= e < c2.blocks.len() && a != e implies c2.blocks[a]
            != c2.blocks[e] by {
            if a < n {
                assert(link_ok(d, o, c, tag, true, a));
            }
            if e < n {
                assert(link_ok(d, o, c, tag, true, e));
            }
        }
    }
    assert forall|a: int| 0 <= a < c2.blocks.len() implies #[trigger] link_ok(
        d2,
        o2,
        c2,
        tag,
        true,
        a,
    ) by {
        if a < n {
            let ba = c.blocks[a];
            assert(link_ok(d, o, c, tag, true, a));
            assert(decode_node(d2[ba]).extents == decode_node(d[ba]).extents);
            assert forall|j: int| 0 <= j < 16 implies #[trigger] slot_ok(d2, o2, c2, true, a, j) by {
                assert(slot_ok(d, o, c, true, a, j));
                let e = extent_at(d, ba, j);
                if e.length > 0 {
                    assert forall|x: int| e.start <= x < e.start + e.span() implies #[trigger] o2[x]
                        == (Owner::Held { node: ba, slot: j }) by {
                        assert(o[x] == (Owner::Held { node: ba, slot: j }));
                    }
                }
                assert forall|x: int, off: int|
                    e.start <= x && 0 <= off < 512 && 512 * (x - e.start) + off
                        < e.length implies #[trigger] d2[x][off] == c2.data[c2.base[16 * a + j]
                    + 512 * (x - e.start) + off] by {
                    lemma_span(e, x, off);
                    assert(o[x] == (Owner::Held { node: ba, slot: j }));
                    assert(d[x][off] == c.data[c.base[16 * a + j] + 512 * (x - e.start) + off]);
                }
            }
        } else {
            assert(d2[cont] == d[cont]);
            assert forall|j: int| 0 <= j < 16 implies #[trigger] slot_ok(d2, o2, c2, true, a, j) by {
                assert(extent_at(d, cont, j).length == 0);
            }
        }
    }
    assert forall|x: int| 0 <= x < d2.len() implies (#[trigger] d2[x]).len() == 512 by {
        assert(d[x].len() == 512);
    }
    assert forall|x: int|
        0 <= x < d.len() && (d2[x] != d[x] || o2[x] != o[x]) implies #[trigger] o[x] == Owner::Loose
        || belongs(o[x], c, tag) by {}
    assert forall|x: int| 0 <= x < d2.len() implies #[trigger] mark_true(d2, m2, x) by {
        assert(mark_true(d, m, x));
        if x == cont {
            assert(c2.blocks[n] == cont);
        } else if o[x] is Link {
            if o[x]->head == k {
                let t = choose|t: int| 0 <= t < c.blocks.len() && c.blocks[t] == x;
                assert(c2.blocks[t] == x);
            }
        } else if o[x] is Held {
            let node = o[x]->node;
            assert(o[node] is FreeLink || o[node] is Link);
            assert(node != cont);
            assert(decode_node(d2[node]).extents == decode_node(d[node]).extents);
        }
    }
    lemma_layout_around(d, d2, h, m, k, o2, c2);
}

/// The marks after the last record of chain `c` left it: its block and the
/// blocks of its extents are loose.
pub open spec fn marks_after_pop(o: Map<int, Owner>, b: int) -> Map<int, Owner> {
    Map::total(
        |x: int|
            if x == b || (o[x] is Held && o[x]->node == b) {
                Owner::Loose
            } else {
                o[x]
            },
    )
}

/// The node at `k` after its last record, which is not its first, left it.
pub open spec fn node_after_pop(m: Model, k: int) -> Model {
    let c = m.chains[k];
    let i = c.blocks.len() - 1;
    Model {
        owner: marks_after_pop(m.owner, c.blocks[i]),
        free: m.free,
        chains: m.chains.insert(
            k,
            Chain {
                blocks: c.blocks.take(i),
                base: c.base.take(16 * i + 1),
                data: c.data.take(c.base[16 * i]),
            },
        ),
    }
}

/// The layout stays proper when the record before the last of a node is
/// made the last; the record that leaves, and what it held, is loose.
pub proof fn lemma_node_pop(d: Seq<Seq<u8>>, h: Header, m: Model, k: int, bytes: Seq<u8>)
    requires
        layout_ok(d, h, m),
        m.chains.contains_key(k),
        m.chains[k].blocks.len() >= 2,
        bytes.len() == 512,
        decode_node(bytes).next == 0,
        decode_node(bytes).extents == decode_node(
            d[m.chains[k].blocks[m.chains[k].blocks.len() - 2]],
        ).extents,
    ensures
        ({
            let c = m.chains[k];
            let i = c.blocks.len() - 1;
            let b = c.blocks[i];
            let m2 = node_after_pop(m, k);
            let d2 = d.update(c.blocks[i - 1], bytes);
            &&& layout_ok(d2, h, m2)
            &&& 3 <= b < d.len()
            &&& d2[b] == d[b]
            &&& 0 <= c.base[16 * i] <= c.data.len()
            &&& forall|j: int|
                0 <= j < 16 ==> extent_owned(
                    m.owner,
                    d.len() as int,
                    b,
                    j,
                    #[trigger] extent_at(d, b, j),
                )
        }),
{
    let c = m.chains[k];
    let o = m.owner;
    let n = c.blocks.len() as int;
    let i = n - 1;
    let b = c.blocks[i];
    let pb = c.blocks[i - 1];
    let m2 = node_after_pop(m, k);
    let c2 = m2.chains[k];
    let o2 = m2.owner;
    let d2 = d.update(pb, bytes);
    let tag = Owner::Link { head: k };
    assert(link_ok(d, o, c, tag, true, i));
    assert(link_ok(d, o, c, tag, true, i - 1));
    assert(link_ok(d, o, c, tag, true, 0));
    lemma_base_mono(d, o, c, tag, true, 0, 16 * i);
    lemma_base_mono(d, o, c, tag, true, 16 * i, 16 * n);
    assert forall|j: int| 0 <= j < 16 implies extent_owned(
        o,
        d.len() as int,
        b,
        j,
        #[trigger] extent_at(d, b, j),
    ) by {
        assert(slot_ok(d, o, c, true, i, j));
    }
    assert forall|a: int| 0 <= a < c2.blocks.len() implies #[trigger] link_ok(
        d2,
        o2,
        c2,
        tag,
        true,
        a,
    ) by {
        let ba = c.blocks[a];
        assert(link_ok(d, o, c, tag, true, a));
        assert(ba != b);
        assert(decode_node(d2[ba]).extents == decode_node(d[ba]).extents);
        assert forall|j: int| 0 <= j < 16 implies #[trigger] slot_ok(d2, o2, c2, true, a, j) by {
            assert(slot_ok(d, o, c, true, a, j));
            let e = extent_at(d, ba, j);
            if e.length > 0 {
                assert forall|x: int| e.start <= x < e.start + e.span() implies #[trigger] o2[x]
                    == (Owner::Held { node: ba, slot: j }) by {
                    assert(o[x] == (Owner::Held { node: ba, slot: j }));
                }
            }
            lemma_base_mono(d, o, c, tag, true, 16 * a + j + 1, 16 * i);
            lemma_base_mono(d, o, c, tag, true, 0, 16 * a + j);
            assert forall|x: int, off: int|
                e.start <= x && 0 <= off < 512 && 512 * (x - e.start) + off
                    < e.length implies #[trigger] d2[x][off] == c2.data[c2.base[16 * a + j] + 512
                * (x - e.start) + off] by {
                lemma_span(e, x, off);
                assert(o[x] == (Owner::Held { node: ba, slot: j }));
                assert(d[x][off] == c.data[c.base[16 * a + j] + 512 * (x - e.start) + off]);
            }
        }
    }
    assert forall|x: int| 0 <= x < d2.len() implies (#[trigger] d2[x]).len() == 512 by {
        assert(d[x].len() == 512);
    }
    assert forall|x: int|
        0 <= x < d.len() && (d2[x] != d[x] || o2[x] != o[x]) implies #[trigger] o[x] == Owner::Loose
        || belongs(o[x], c, tag) by {}
    assert forall|x: int| 0 <= x < d2.len() implies #[trigger] mark_true(d2, m2, x) by {
        assert(mark_true(d, m, x));
        if o2[x] != o[x] {
        } else if o[x] is Link {
            if o[x]->head == k {
                let t = choose|t: int| 0 <= t < c.blocks.len() && c.blocks[t] == x;
                assert(t != i);
                assert(c2.blocks[t] == x);
            }
        } else if o[x] is Held {
            let node = o[x]->node;
            assert(o[node] is FreeLink || o[node] is Link);
            assert(node != b);
            assert(o2[node] == o[node]);
            assert(decode_node(d2[node]).extents == decode_node(d[node]).extents);
        }
    }
    lemma_layout_around(d, d2, h, m, k, o2, c2);
}

} // verus!

verus! {

/// What is left of extent `e`, whose bytes start at `pos` in the chain, when
/// the chain is cut to `limit` bytes.
pub open spec fn cut_extent(e: Extent, pos: int, limit: int) -> Extent {
    if pos >= limit || e.length == 0 {
        Extent { start: 0, length: 0 }
    } else if pos + e.length > limit {
        Extent { start: e.start, length: (limit - pos) as u64 }
    } else {
        e
    }
}

/// The marks after the last record of chain `c` was cut to `limit` bytes:
/// the blocks that its extents gave up are loose.
pub open spec fn marks_after_cut(d: Seq<Seq<u8>>, o: Map<int, Owner>, c: Chain, limit: int) -> Map<
    int,
    Owner,
> {
    let i = c.blocks.len() - 1;
    let b = c.blocks[i];
    Map::total(
        |x: int|
            if o[x] is Held && o[x]->node == b && 0 <= o[x]->slot < 16 && x >= extent_at(
                d,
                b,
                o[x]->slot,
            ).start + cut_extent(
                extent_at(d, b, o[x]->slot),
                c.base[16 * i + o[x]->slot],
                limit,
            ).span() {
                Owner::Loose
            } else {
                o[x]
            },
    )
}

/// The node at `k` after its last record was cut so that the node holds
/// `limit` bytes.
pub open spec fn node_after_cut(d: Seq<Seq<u8>>, m: Model, k: int, limit: int) -> Model {
    let c = m.chains[k];
    Model {
        owner: marks_after_cut(d, m.owner, c, limit),
        free: m.free,
        chains: m.chains.insert(
            k,
            Chain {
                blocks: c.blocks,
                base: Seq::new(
                    c.base.len(),
                    |t: int|
                        if c.base[t] < limit {
                            c.base[t]
                        } else {
                            limit
                        },
                ),
                data: c.data.take(limit),
            },
        ),
    }
}

/// The layout stays proper when the extents of a node's last record are cut
/// so that the node holds `limit` bytes.
pub proof fn lemma_node_cut(
    d: Seq<Seq<u8>>,
    h: Header,
    m: Model,
    k: int,
    limit: int,
    bytes: Seq<u8>,
)
    requires
        layout_ok(d, h, m),
        m.chains.contains_key(k),
        0 <= limit <= m.chains[k].total(),
        m.chains[k].base[16 * (m.chains[k].blocks.len() - 1)] <= limit,
        bytes.len() == 512,
        decode_node(bytes).next == 0,
        forall|j: int|
            0 <= j < 16 ==> #[trigger] decode_node(bytes).extents[j] == cut_extent(
                extent_at(d, m.chains[k].blocks.last(), j),
                m.chains[k].base[16 * (m.chains[k].blocks.len() - 1) + j],
                limit,
            ),
    ensures
        layout_ok(d.update(m.chains[k].blocks.last(), bytes), h, node_after_cut(d, m, k, limit)),
        3 <= m.chains[k].blocks.last() < d.len(),
        forall|j: int|
            0 <= j < 16 ==> extent_owned(
                m.owner,
                d.len() as int,
                m.chains[k].blocks.last(),
                j,
                #[trigger] extent_at(d, m.chains[k].blocks.last(), j),
            ),
{
    let c = m.chains[k];
    let o = m.owner;
    let n = c.blocks.len() as int;
    let i = n - 1;
    let b = c.blocks[i];
    let m2 = node_after_cut(d, m, k, limit);
    let c2 = m2.chains[k];
    let o2 = m2.owner;
    let d2 = d.update(b, bytes);
    let tag = Owner::Link { head: k };
    assert(link_ok(d, o, c, tag, true, i));
    assert(link_ok(d, o, c, tag, true, 0));
    assert forall|j: int| 0 <= j < 16 implies extent_owned(
        o,
        d.len() as int,
        b,
        j,
        #[trigger] extent_at(d, b, j),
    ) by {
        assert(slot_ok(d, o, c, true, i, j));
    }
    assert(d2[b] == bytes);
    assert forall|j: int| 0 <= j < 16 implies #[trigger] slot_ok(d2, o2, c2, true, i, j) by {
        assert(slot_ok(d, o, c, true, i, j));
        let e = extent_at(d, b, j);
        let e2 = cut_extent(e, c.base[16 * i + j], limit);
        assert(decode_node(bytes).extents[j] == e2);
        assert(extent_at(d2, b, j) == e2);
        lemma_base_mono(d, o, c, tag, true, 0, 16 * i + j);
        if e2.length > 0 {
            assert(e2.span() <= e.span());
            assert forall|x: int| e2.start <= x < e2.start + e2.span() implies #[trigger] o2[x] == (
            Owner::Held { node: b, slot: j }) by {
                assert(o[x] == (Owner::Held { node: b, slot: j }));
            }
            assert forall|x: int, off: int|
                e2.start <= x && 0 <= off < 512 && 512 * (x - e2.start) + off
                    < e2.length implies #[trigger] d2[x][off] == c2.data[c2.base[16 * i + j] + 512
                * (x - e2.start) + off] by {
                lemma_span(e2, x, off);
                assert(o[x] == (Owner::Held { node: b, slot: j }));
                assert(x != b);
                assert(d[x][off] == c.data[c.base[16 * i + j] + 512 * (x - e.start) + off]);
            }
        }
    }
    assert forall|t: int| 0 <= t <= 16 * i implies c2.base[t] == c.base[t] by {
        lemma_base_mono(d, o, c, tag, true, t, 16 * i);
    }
    assert forall|x: int| 0 <= x < d.len() && #[trigger] o2[x] != o[x] implies o[x] == Owner::Loose
        || (o[x] matches Owner::Held { node, slot } && node == b) by {}
    lemma_base_mono(d, o, c, tag, true, 0, 16 * i);
    crate::rewrite::lemma_rewrite(d, o, c, tag, true, i, bytes, o2, c2);
    assert forall|x: int| 0 <= x < d2.len() implies #[trigger] mark_true(d2, m2, x) by {
        assert(mark_true(d, m, x));
        if o2[x] != o[x] {
        } else if o[x] is Link {
            if o[x]->head == k {
                let t = choose|t: int| 0 <= t < c.blocks.len() && c.blocks[t] == x;
                assert(c2.blocks[t] == x);
            }
        } else if o[x] is Held {
            let node = o[x]->node;
            let slot = o[x]->slot;
            assert(o[node] is FreeLink || o[node] is Link);
            assert(o2[node] == o[node]);
            if node == b {
                assert(slot_ok(d, o, c, true, i, slot));
                assert(decode_node(bytes).extents[slot] == cut_extent(
                    extent_at(d, b, slot),
                    c.base[16 * i + slot],
                    limit,
                ));
            }
        }
    }
    crate::extend::lemma_layout_around_node(d, h, m, k, b, bytes, o2, c2);
}

} // verus!
