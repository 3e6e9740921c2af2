use vstd::prelude::*;
use crate::freelist::{fits_at, no_fit};
use crate::model::{chain_ok, extent_at, link_ok, Chain, Owner};
use crate::node::decode_node;

verus! {

/// Whoever can give a run can give a shorter one.
pub proof fn lemma_fit_less(d: Seq<Seq<u8>>, c: Chain, n: int, less: int)
    requires
        no_fit(d, c, n),
        less >= 0,
    ensures
        no_fit(d, c, n + less),
{
    assert forall|i2: int, j2: int| 0 <= i2 < c.blocks.len() && 0 <= j2 < 16 implies !#[trigger] fits_at(
        d,
        c,
        i2,
        j2,
        n + less,
    ) by {
        assert(!fits_at(d, c, i2, j2, n));
    }
}

/// Where record `i` of the free list is rewritten and no extent loses more
/// than `less` blocks, a run that the list could give before, less `less`
/// blocks, it can give after.
pub proof fn lemma_fit_rewrite(
    d: Seq<Seq<u8>>,
    o: Map<int, Owner>,
    c: Chain,
    i: int,
    bytes: Seq<u8>,
    c2: Chain,
    n: int,
    less: int,
)
    requires
        chain_ok(d, o, c, Owner::FreeLink, false),
        0 <= i < c.blocks.len(),
        c2.blocks == c.blocks,
        less >= 0,
        forall|j2: int|
            0 <= j2 < 16 ==> (#[trigger] decode_node(bytes).extents[j2]).length / 512 + less
                >= extent_at(d, c.blocks[i], j2).length / 512,
        no_fit(d.update(c.blocks[i], bytes), c2, n),
    ensures
        no_fit(d, c, n + less),
{
    let d2 = d.update(c.blocks[i], bytes);
    assert(link_ok(d, o, c, Owner::FreeLink, false, i));
    assert forall|i2: int, j2: int| 0 <= i2 < c.blocks.len() && 0 <= j2 < 16 implies !#[trigger] fits_at(
        d,
        c,
        i2,
        j2,
        n + less,
    ) by {
        assert(link_ok(d, o, c, Owner::FreeLink, false, i2));
        assert(!fits_at(d2, c2, i2, j2, n));
        if i2 == i {
            assert(decode_node(bytes).extents[j2].length / 512 + less >= extent_at(
                d,
                c.blocks[i],
                j2,
            ).length / 512);
        } else {
            assert(c.blocks[i2] != c.blocks[i]);
        }
    }
}

/// Where the free list gains a first record and keeps the others as they
/// are, a run that it could give before it can give after.
pub proof fn lemma_fit_push(d: Seq<Seq<u8>>, c: Chain, d2: Seq<Seq<u8>>, c2: Chain, n: int)
    requires
        c2.blocks.len() == c.blocks.len() + 1,
        forall|i2: int|
            0 <= i2 < c.blocks.len() ==> c2.blocks[i2 + 1] == #[trigger] c.blocks[i2] && decode_node(
                d2[c.blocks[i2]],
            ).extents == decode_node(d[c.blocks[i2]]).extents,
        no_fit(d2, c2, n),
    ensures
        no_fit(d, c, n),
{
    assert forall|i2: int, j2: int| 0 <= i2 < c.blocks.len() && 0 <= j2 < 16 implies !#[trigger] fits_at(
        d,
        c,
        i2,
        j2,
        n,
    ) by {
        assert(c2.blocks[i2 + 1] == c.blocks[i2]);
        assert(!fits_at(d2, c2, i2 + 1, j2, n));
    }
}

/// Where record `i` of the free list, whose extents have no more than
/// `less` blocks each, leaves the list and the others stay as they are, a
/// run that the list could give before, less `less` blocks, it can give
/// after.
pub proof fn lemma_fit_unlink(
    d: Seq<Seq<u8>>,
    c: Chain,
    i: int,
    d2: Seq<Seq<u8>>,
    c2: Chain,
    n: int,
    less: int,
)
    requires
        0 <= i < c.blocks.len(),
        c.blocks.len() >= 2,
        less >= 1,
        c2.blocks == c.blocks.remove(i),
        forall|j2: int| 0 <= j2 < 16 ==> (#[trigger] extent_at(d, c.blocks[i], j2)).length / 512 <= less,
        forall|i2: int|
            0 <= i2 < c.blocks.len() && i2 != i ==> decode_node(d2[#[trigger] c.blocks[i2]]).extents
                == decode_node(d[c.blocks[i2]]).extents,
        no_fit(d2, c2, n),
    ensures
        no_fit(d, c, n + less),
{
    assert forall|i2: int, j2: int| 0 <= i2 < c.blocks.len() && 0 <= j2 < 16 implies !#[trigger] fits_at(
        d,
        c,
        i2,
        j2,
        n + less,
    ) by {
        if i2 == i {
            assert(extent_at(d, c.blocks[i], j2).length / 512 <= less);
            assert(!fits_at(d2, c2, 0, 0, n));
        } else {
            let t = if i2 < i {
                i2
            } else {
                i2 - 1
            };
            assert(c2.blocks[t] == c.blocks[i2]);
            assert(decode_node(d2[c.blocks[i2]]).extents == decode_node(d[c.blocks[i2]]).extents);
            assert(!fits_at(d2, c2, t, j2, n));
        }
    }
}

} // verus!
