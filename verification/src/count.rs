use vstd::prelude::*;
use vstd::set_lib::{lemma_int_range, lemma_len_subset, lemma_set_disjoint_lens, set_int_range};
use crate::model::{chain_ok, covers, extent_at, link_ok, slot_ok, Chain, Owner};

verus! {

/// Whether block `x` lies inside the extent in slot `j` of record `i` of
/// chain `c`.
pub open spec fn slot_covers(d: Seq<Seq<u8>>, c: Chain, i: int, j: int, x: int) -> bool {
    0 <= i < c.blocks.len() && 0 <= j < 16 && covers(extent_at(d, c.blocks[i], j), x)
}

/// The blocks inside the extents of the first `k` slots of chain `c`.
pub open spec fn covered(d: Seq<Seq<u8>>, c: Chain, k: int) -> Set<int> {
    Set::new(|x: int| exists|i: int, j: int| #[trigger] slot_covers(d, c, i, j, x) && 16 * i + j < k)
}

/// The extents of the first `k` slots of a chain hold no more bytes than
/// the blocks they lie in, and those blocks are blocks of the image, none
/// counted twice.
pub proof fn lemma_covered_count(
    d: Seq<Seq<u8>>,
    o: Map<int, Owner>,
    c: Chain,
    tag: Owner,
    content: bool,
    k: int,
)
    requires
        chain_ok(d, o, c, tag, content),
        0 <= k <= 16 * c.blocks.len(),
    ensures
        covered(d, c, k).finite(),
        covered(d, c, k).subset_of(set_int_range(0, d.len() as int)),
        c.base[k] <= 512 * covered(d, c, k).len(),
    decreases k,
{
    let all = set_int_range(0, d.len() as int);
    lemma_int_range(0, d.len() as int);
    if k == 0 {
        assert(covered(d, c, 0) =~= Set::<int>::empty());
    } else {
        lemma_covered_count(d, o, c, tag, content, k - 1);
        let i = (k - 1) / 16;
        let j = (k - 1) % 16;
        let e = extent_at(d, c.blocks[i], j);
        assert(link_ok(d, o, c, tag, content, i));
        assert(slot_ok(d, o, c, content, i, j));
        let before = covered(d, c, k - 1);
        let run = if e.length > 0 {
            set_int_range(e.start as int, e.start + e.span())
        } else {
            Set::<int>::empty()
        };
        if e.length > 0 {
            lemma_int_range(e.start as int, e.start + e.span());
        }
        let now = covered(d, c, k);
        assert forall|x: int| now.contains(x) implies (before + run).contains(x) by {
            let (i2, j2) = choose|i2: int, j2: int| #[trigger]
                slot_covers(d, c, i2, j2, x) && 16 * i2 + j2 < k;
            if 16 * i2 + j2 < k - 1 {
                assert(slot_covers(d, c, i2, j2, x) && 16 * i2 + j2 < k - 1);
            } else {
                assert(i2 == i && j2 == j);
            }
        }
        assert forall|x: int| (before + run).contains(x) implies now.contains(x) by {
            if before.contains(x) {
                let (i2, j2) = choose|i2: int, j2: int| #[trigger]
                    slot_covers(d, c, i2, j2, x) && 16 * i2 + j2 < k - 1;
                assert(slot_covers(d, c, i2, j2, x) && 16 * i2 + j2 < k);
            } else {
                assert(slot_covers(d, c, i, j, x) && 16 * i + j < k);
            }
        }
        assert(now =~= before + run);
        assert(before.disjoint(run)) by {
            assert forall|x: int| before.contains(x) implies !run.contains(x) by {
                let (i2, j2) = choose|i2: int, j2: int| #[trigger]
                    slot_covers(d, c, i2, j2, x) && 16 * i2 + j2 < k - 1;
                assert(link_ok(d, o, c, tag, content, i2));
                assert(slot_ok(d, o, c, content, i2, j2));
                if run.contains(x) {
                    assert(o[x] == (Owner::Held { node: c.blocks[i2], slot: j2 }));
                    assert(o[x] == (Owner::Held { node: c.blocks[i], slot: j }));
                    assert(i2 == i);
                }
            }
        }
        lemma_set_disjoint_lens(before, run);
        assert(run.subset_of(all));
        assert(now.subset_of(all));
        lemma_len_subset(now, all);
        assert(e.length <= 512 * e.span());
    }
}

/// A chain holds no more bytes than the image has.
pub proof fn lemma_total_bound(
    d: Seq<Seq<u8>>,
    o: Map<int, Owner>,
    c: Chain,
    tag: Owner,
    content: bool,
)
    requires
        chain_ok(d, o, c, tag, content),
    ensures
        c.total() <= 512 * d.len(),
{
    let k = 16 * (c.blocks.len() as int);
    lemma_covered_count(d, o, c, tag, content, k);
    lemma_int_range(0, d.len() as int);
    lemma_len_subset(covered(d, c, k), set_int_range(0, d.len() as int));
}

} // verus!
