use vstd::prelude::*;
use crate::frame::{belongs, lemma_chain_frame, lemma_span, untouched};
use crate::header::Header;
use crate::model::{
    chain_ok, extent_at, extent_holds, extent_owned, free_aligned, layout_ok, link_ok, marks_true,
    slot_ok,
    Chain, Model, Owner,
};
use crate::node::{decode_node, Extent};

verus! {

/// The entries of `base` never fall.
pub proof fn lemma_base_mono(
    d: Seq<Seq<u8>>,
    o: Map<int, Owner>,
    c: Chain,
    tag: Owner,
    content: bool,
    k1: int,
    k2: int,
)
    requires
        chain_ok(d, o, c, tag, content),
        0 <= k1 <= k2 <= 16 * c.blocks.len(),
    ensures
        c.base[k1] <= c.base[k2],
    decreases k2 - k1,
{
    if k1 < k2 {
        lemma_base_mono(d, o, c, tag, content, k1, k2 - 1);
        let i = (k2 - 1) / 16;
        let j = (k2 - 1) % 16;
        assert(link_ok(d, o, c, tag, content, i));
        assert(slot_ok(d, o, c, content, i, j));
    }
}

/// A chain has no more records than the image has blocks.
pub proof fn lemma_chain_short(
    d: Seq<Seq<u8>>,
    o: Map<int, Owner>,
    c: Chain,
    tag: Owner,
    content: bool,
)
    requires
        chain_ok(d, o, c, tag, content),
    ensures
        c.blocks.len() <= d.len(),
{
    let s = c.blocks.to_set();
    let all = vstd::set_lib::set_int_range(0, d.len() as int);
    c.blocks.unique_seq_to_set();
    vstd::set_lib::lemma_int_range(0, d.len() as int);
    assert forall|x: int| s.contains(x) implies all.contains(x) by {
        let i = choose|i: int| 0 <= i < c.blocks.len() && c.blocks[i] == x;
        assert(link_ok(d, o, c, tag, content, i));
    }
    vstd::set_lib::lemma_len_subset(s, all);
}

/// What holds of the marks when record `b` of a chain is rewritten: a mark
/// changes only on a block that was loose or inside an extent of `b`.
pub open spec fn marks_moved(o1: Map<int, Owner>, o2: Map<int, Owner>, n: int, b: int) -> bool {
    forall|x: int|
        0 <= x < n && #[trigger] o2[x] != o1[x] ==> o1[x] == Owner::Loose || (
        o1[x] matches Owner::Held { node, slot } && node == b)
}

/// The other records of a chain stay proper when record `i` is rewritten in
/// place, given that the rewritten record is proper itself.
pub proof fn lemma_rewrite(
    d1: Seq<Seq<u8>>,
    o1: Map<int, Owner>,
    c1: Chain,
    tag: Owner,
    content: bool,
    i: int,
    bytes: Seq<u8>,
    o2: Map<int, Owner>,
    c2: Chain,
)
    requires
        chain_ok(d1, o1, c1, tag, content),
        !(tag is Held),
        !(tag is Loose),
        0 <= i < c1.blocks.len(),
        bytes.len() == 512,
        c2.blocks == c1.blocks,
        c2.base.len() == c1.base.len(),
        decode_node(bytes).next == c1.next_of(i),
        forall|t: int| 0 <= t <= 16 * i ==> c2.base[t] == c1.base[t],
        forall|t: int|
            16 * i + 16 <= t < c1.base.len() ==> #[trigger] c2.base[t] == c1.base[t] + (c2.base[16
                * i + 16] - c1.base[16 * i + 16]),
        marks_moved(o1, o2, d1.len() as int, c1.blocks[i]),
        o2[c1.blocks[i]] == tag,
        forall|j: int|
            0 <= j < 16 ==> #[trigger] slot_ok(
                d1.update(c1.blocks[i], bytes),
                o2,
                c2,
                content,
                i,
                j,
            ),
        content ==> c2.data.len() == c2.total(),
        content ==> c2.total() <= u64::MAX,
        content ==> forall|p: int| 0 <= p < c1.base[16 * i] ==> c2.data[p] == c1.data[p],
        content ==> forall|i2: int, j: int|
            i < i2 < c1.blocks.len() && 0 <= j < 16 ==> (#[trigger] extent_at(
                d1,
                c1.blocks[i2],
                j,
            )).length == 0,
    ensures
        chain_ok(d1.update(c1.blocks[i], bytes), o2, c2, tag, content),
{
    let b = c1.blocks[i];
    let d2 = d1.update(b, bytes);
    assert(link_ok(d1, o1, c1, tag, content, i));
    assert forall|i2: int| 0 <= i2 < c2.blocks.len() implies #[trigger] link_ok(
        d2,
        o2,
        c2,
        tag,
        content,
        i2,
    ) by {
        if i2 != i {
            let b2 = c1.blocks[i2];
            assert(link_ok(d1, o1, c1, tag, content, i2));
            assert(b2 != b);
            assert(d2[b2] == d1[b2]);
            assert forall|j: int| 0 <= j < 16 implies #[trigger] slot_ok(
                d2,
                o2,
                c2,
                content,
                i2,
                j,
            ) by {
                assert(slot_ok(d1, o1, c1, content, i2, j));
                let e = extent_at(d1, b2, j);
                if e.length > 0 {
                    assert forall|x: int| e.start <= x < e.start + e.span() implies #[trigger] o2[x]
                        == (Owner::Held { node: b2, slot: j }) by {
                        assert(o1[x] == (Owner::Held { node: b2, slot: j }));
                    }
                }
                if content {
                    if i2 > i {
                        assert(extent_at(d1, c1.blocks[i2], j).length == 0);
                    } else {
                        lemma_base_mono(d1, o1, c1, tag, content, 16 * i2 + j + 1, 16 * i);
                        lemma_base_mono(d1, o1, c1, tag, content, 0, 16 * i2 + j);
                        assert forall|x: int, o: int|
                            e.start <= x && 0 <= o < 512 && 512 * (x - e.start) + o
                                < e.length implies #[trigger] d2[x][o] == c2.data[c2.base[16 * i2
                            + j] + 512 * (x - e.start) + o] by {
                            lemma_span(e, x, o);
                            assert(o1[x] == (Owner::Held { node: b2, slot: j }));
                            assert(x != b);
                            assert(d1[x][o] == c1.data[c1.base[16 * i2 + j] + 512 * (x - e.start)
                                + o]);
                        }
                    }
                }
            }
        }
    }
}

/// A chain stays proper when a record of another chain is rewritten and
/// marks move only on loose blocks and inside that record's extents.
pub proof fn lemma_other_kept(
    d1: Seq<Seq<u8>>,
    o1: Map<int, Owner>,
    o2: Map<int, Owner>,
    b: int,
    bytes: Seq<u8>,
    c: Chain,
    tag: Owner,
    content: bool,
)
    requires
        chain_ok(d1, o1, c, tag, content),
        0 <= b < d1.len(),
        o1[b] != tag,
        !(o1[b] is Held),
        !(tag is Held),
        !(tag is Loose),
        marks_moved(o1, o2, d1.len() as int, b),
    ensures
        chain_ok(d1.update(b, bytes), o2, c, tag, content),
{
    let d2 = d1.update(b, bytes);
    assert forall|x: int| 0 <= x < d1.len() && belongs(#[trigger] o1[x], c, tag) implies d2[x]
        == d1[x] && o2[x] == o1[x] by {
        if o1[x] is Held {
            let node = o1[x]->node;
            let i = choose|i: int| 0 <= i < c.blocks.len() && c.blocks[i] == node;
            assert(link_ok(d1, o1, c, tag, content, i));
        }
    }
    lemma_chain_frame(d1, d2, o1, o2, c, tag, content);
}

/// The layout stays proper when a record of the free list is rewritten in
/// place.
pub proof fn lemma_layout_rewrite_free(
    d: Seq<Seq<u8>>,
    h: Header,
    m: Model,
    i: int,
    bytes: Seq<u8>,
    o2: Map<int, Owner>,
    c2: Chain,
)
    requires
        layout_ok(d, h, m),
        0 <= i < m.free.blocks.len(),
        bytes.len() == 512,
        c2.blocks == m.free.blocks,
        c2.base.len() == m.free.base.len(),
        decode_node(bytes).next == m.free.next_of(i),
        forall|t: int| 0 <= t <= 16 * i ==> c2.base[t] == m.free.base[t],
        forall|t: int|
            16 * i + 16 <= t < c2.base.len() ==> #[trigger] c2.base[t] == m.free.base[t] + (
            c2.base[16 * i + 16] - m.free.base[16 * i + 16]),
        marks_moved(m.owner, o2, d.len() as int, m.free.blocks[i]),
        o2[m.free.blocks[i]] == Owner::FreeLink,
        forall|j: int|
            0 <= j < 16 ==> #[trigger] slot_ok(
                d.update(m.free.blocks[i], bytes),
                o2,
                c2,
                false,
                i,
                j,
            ),
        forall|j: int| 0 <= j < 16 ==> (#[trigger] decode_node(bytes).extents[j]).length % 512 == 0,
        marks_true(
            d.update(m.free.blocks[i], bytes),
            Model { owner: o2, free: c2, chains: m.chains },
        ),
    ensures
        layout_ok(
            d.update(m.free.blocks[i], bytes),
            h,
            Model { owner: o2, free: c2, chains: m.chains },
        ),
{
    let b = m.free.blocks[i];
    let d2 = d.update(b, bytes);
    let m2 = Model { owner: o2, free: c2, chains: m.chains };
    assert(link_ok(d, m.owner, m.free, Owner::FreeLink, false, i));
    lemma_rewrite(d, m.owner, m.free, Owner::FreeLink, false, i, bytes, o2, c2);
    assert forall|x: int| 0 <= x < d2.len() implies (#[trigger] d2[x]).len() == 512 by {
        assert(d[x].len() == 512);
    }
    assert forall|x: int| 0 <= x < 3 implies #[trigger] o2[x] == Owner::Reserved by {
        assert(m.owner[x] == Owner::Reserved);
    }
    assert forall|i2: int, j: int|
        0 <= i2 < c2.blocks.len() && 0 <= j < 16 implies (#[trigger] extent_at(
        d2,
        c2.blocks[i2],
        j,
    )).length % 512 == 0 by {
        if i2 != i {
            assert(link_ok(d, m.owner, m.free, Owner::FreeLink, false, i2));
            assert(extent_at(d, m.free.blocks[i2], j).length % 512 == 0);
        } else {
            assert(decode_node(bytes).extents[j].length % 512 == 0);
        }
    }
    assert forall|k: int| #[trigger] m2.chains.contains_key(k) implies m2.chains[k].blocks[0] == k
        && chain_ok(d2, o2, m2.chains[k], Owner::Link { head: k }, true) by {
        lemma_other_kept(d, m.owner, o2, b, bytes, m.chains[k], Owner::Link { head: k }, true);
    }
}

} // verus!
