use vstd::prelude::*;
use crate::model::{
    chain_ok, extent_at, extent_holds, extent_owned, link_ok, slot_ok, Chain, Owner,
};
use crate::node::{decode_node, Extent};

verus! {

/// Whether a block marked `o` is part of chain `c`, whose records carry
/// `tag`: one of its records, or inside one of their extents.
pub open spec fn belongs(o: Owner, c: Chain, tag: Owner) -> bool {
    o == tag || (o matches Owner::Held { node, slot } && c.blocks.contains(node))
}

/// Every block of chain `c` holds in `d2` what it held in `d1`, and is
/// marked in `o2` as it was in `o1`.
pub open spec fn untouched(
    d1: Seq<Seq<u8>>,
    d2: Seq<Seq<u8>>,
    o1: Map<int, Owner>,
    o2: Map<int, Owner>,
    c: Chain,
    tag: Owner,
) -> bool {
    &&& d2.len() == d1.len()
    &&& forall|x: int|
        0 <= x < d1.len() && belongs(#[trigger] o1[x], c, tag) ==> d2[x] == d1[x] && o2[x] == o1[x]
}

/// The marks `o` with the blocks of `[lo, hi)` marked `v`.
pub open spec fn mark(o: Map<int, Owner>, lo: int, hi: int, v: Owner) -> Map<int, Owner> {
    Map::total(
        |x: int|
            if lo <= x < hi {
                v
            } else {
                o[x]
            },
    )
}

/// `base` with every entry after index `k` moved by `delta`.
pub open spec fn shift(base: Seq<int>, k: int, delta: int) -> Seq<int> {
    Seq::new(
        base.len(),
        |t: int|
            if t > k {
                base[t] + delta
            } else {
                base[t]
            },
    )
}

/// A block inside a non-empty extent lies within the extent's span.
pub proof fn lemma_span(e: Extent, x: int, o: int)
    requires
        e.start <= x,
        0 <= o < 512,
        512 * (x - e.start) + o < e.length,
    ensures
        x < e.start + e.span(),
        e.length > 0,
{
}

/// A chain none of whose blocks was touched is still a proper chain.
pub proof fn lemma_chain_frame(
    d1: Seq<Seq<u8>>,
    d2: Seq<Seq<u8>>,
    o1: Map<int, Owner>,
    o2: Map<int, Owner>,
    c: Chain,
    tag: Owner,
    content: bool,
)
    requires
        chain_ok(d1, o1, c, tag, content),
        untouched(d1, d2, o1, o2, c, tag),
    ensures
        chain_ok(d2, o2, c, tag, content),
{
    assert forall|i: int| 0 <= i < c.blocks.len() implies #[trigger] link_ok(
        d2,
        o2,
        c,
        tag,
        content,
        i,
    ) by {
        lemma_link_frame(d1, d2, o1, o2, c, tag, content, i);
    }
}

/// A record of a chain none of whose blocks was touched is as it was.
pub proof fn lemma_link_frame(
    d1: Seq<Seq<u8>>,
    d2: Seq<Seq<u8>>,
    o1: Map<int, Owner>,
    o2: Map<int, Owner>,
    c: Chain,
    tag: Owner,
    content: bool,
    i: int,
)
    requires
        0 <= i < c.blocks.len(),
        link_ok(d1, o1, c, tag, content, i),
        untouched(d1, d2, o1, o2, c, tag),
    ensures
        link_ok(d2, o2, c, tag, content, i),
        d2[c.blocks[i]] == d1[c.blocks[i]],
{
    let b = c.blocks[i];
    assert(belongs(o1[b], c, tag));
    assert forall|j: int| 0 <= j < 16 implies #[trigger] slot_ok(d2, o2, c, content, i, j) by {
        assert(slot_ok(d1, o1, c, content, i, j));
        let e = extent_at(d1, b, j);
        assert(extent_at(d2, b, j) == e);
        if e.length > 0 {
            assert forall|x: int| e.start <= x < e.start + e.span() implies #[trigger] o2[x] == (
            Owner::Held { node: b, slot: j }) && d2[x] == d1[x] by {
                assert(o1[x] == (Owner::Held { node: b, slot: j }));
                assert(belongs(o1[x], c, tag));
            }
        }
        if content {
            assert forall|x: int, o: int|
                e.start <= x && 0 <= o < 512 && 512 * (x - e.start) + o < e.length implies #[trigger] d2[x][o]
                == c.data[c.base[16 * i + j] + 512 * (x - e.start) + o] by {
                lemma_span(e, x, o);
                assert(o1[x] == (Owner::Held { node: b, slot: j }));
                assert(d2[x] == d1[x]);
                assert(d1[x][o] == c.data[c.base[16 * i + j] + 512 * (x - e.start) + o]);
            }
        }
    }
}

} // verus!
