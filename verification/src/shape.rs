use vstd::prelude::*;
use crate::model::Chain;
use crate::node::Extent;
use crate::reshape::cut_extent;
use crate::resize::gave_up;

verus! {

/// The number of blocks that `len` bytes take up.
pub open spec fn span_of(len: int) -> int {
    (len + 511) / 512
}

/// The number of blocks that the extents of the first `k` slots take up,
/// where `base` holds the places at which the slots' bytes start.
pub open spec fn spans(base: Seq<int>, k: int) -> int
    decreases k,
{
    if k <= 0 {
        0
    } else {
        spans(base, k - 1) + span_of(base[k] - base[k - 1])
    }
}

/// The number of blocks a chain takes up: its records, and the blocks of
/// their extents.
pub open spec fn footprint(c: Chain) -> int {
    c.blocks.len() + spans(c.base, 16 * (c.blocks.len() as int))
}

/// The number of records, of the first `n`, that a chain keeps when it is
/// shortened to `limit` bytes: a record other than the first leaves where
/// all its bytes lie behind the limit.
pub open spec fn kept(base: Seq<int>, n: int, limit: int) -> int
    decreases n,
{
    if n > 1 && base[16 * (n - 1)] >= limit {
        kept(base, n - 1, limit)
    } else {
        n
    }
}

/// The places of the first `n` records' slots after a cut at `limit`.
pub open spec fn cut_base(base: Seq<int>, n: int, limit: int) -> Seq<int> {
    Seq::new(
        (16 * n + 1) as nat,
        |t: int|
            if base[t] < limit {
                base[t]
            } else {
                limit
            },
    )
}

/// The number of blocks a chain takes up after it is shortened to `limit`
/// bytes.
pub open spec fn shrunk_footprint(c: Chain, limit: int) -> int {
    let n = kept(c.base, c.blocks.len() as int, limit);
    n + spans(cut_base(c.base, n, limit), 16 * n)
}

/// Places that agree give the same number of blocks.
pub proof fn lemma_spans_same(a: Seq<int>, b: Seq<int>, k: int)
    requires
        forall|t: int| 0 <= t <= k ==> a[t] == b[t],
    ensures
        spans(a, k) == spans(b, k),
    decreases k,
{
    if k > 0 {
        lemma_spans_same(a, b, k - 1);
    }
}

/// Where two lists of places agree up to `from` and step alike behind it,
/// they give the same number of blocks behind it.
pub proof fn lemma_spans_alike(a: Seq<int>, b: Seq<int>, from: int, k: int)
    requires
        0 <= from <= k,
        forall|t: int| from <= t < k ==> #[trigger] a[t + 1] - a[t] == b[t + 1] - b[t],
    ensures
        spans(a, k) - spans(a, from) == spans(b, k) - spans(b, from),
    decreases k,
{
    if k > from {
        lemma_spans_alike(a, b, from, k - 1);
        assert(a[(k - 1) + 1] - a[k - 1] == b[(k - 1) + 1] - b[k - 1]);
    }
}

/// The blocks that the slots of one record take up are those that they give
/// up when all are emptied.
pub proof fn lemma_record_all(was: Seq<Extent>, none: Seq<Extent>, base: Seq<int>, off: int, k: int)
    requires
        0 <= k <= 16,
        0 <= off,
        forall|j: int| 0 <= j < 16 ==> #[trigger] base[off + j + 1] == base[off + j] + was[j].length,
        forall|j: int| 0 <= j < 16 ==> (#[trigger] none[j]).length == 0,
    ensures
        spans(base, off + k) - spans(base, off) == gave_up(was, none, k),
    decreases k,
{
    if k > 0 {
        lemma_record_all(was, none, base, off, k - 1);
        let j = k - 1;
        assert(base[off + j + 1] == base[off + j] + was[j].length);
        assert(none[j].length == 0);
    }
}

/// The blocks that the slots of one record give up in a cut are the
/// difference of what they take up before and after.
pub proof fn lemma_record_cut(
    was: Seq<Extent>,
    now: Seq<Extent>,
    base: Seq<int>,
    after: Seq<int>,
    off: int,
    limit: int,
    k: int,
)
    requires
        0 <= k <= 16,
        0 <= off,
        forall|j: int| 0 <= j < 16 ==> #[trigger] base[off + j + 1] == base[off + j] + was[j].length,
        forall|j: int| 0 <= j < 16 ==> #[trigger] now[j] == cut_extent(was[j], base[off + j], limit),
        forall|j: int|
            0 <= j <= 16 ==> #[trigger] after[off + j] == (if base[off + j] < limit {
                base[off + j]
            } else {
                limit
            }),
    ensures
        spans(base, off + k) - spans(base, off) - gave_up(was, now, k) == spans(after, off + k)
            - spans(after, off),
    decreases k,
{
    if k > 0 {
        lemma_record_cut(was, now, base, after, off, limit, k - 1);
        let j = k - 1;
        assert(base[off + j + 1] == base[off + j] + was[j].length);
        assert(now[j] == cut_extent(was[j], base[off + j], limit));
        assert(after[off + j] == (if base[off + j] < limit {
            base[off + j]
        } else {
            limit
        }));
        assert(after[off + (j + 1)] == (if base[off + (j + 1)] < limit {
            base[off + (j + 1)]
        } else {
            limit
        }));
    }
}

/// A record that leaves is not counted among those kept.
pub proof fn lemma_kept_drop(base: Seq<int>, n: int, limit: int)
    requires
        n > 1,
        base[16 * (n - 1)] >= limit,
    ensures
        kept(base, n, limit) == kept(base, n - 1, limit),
{
}

} // verus!

verus! {

/// What one slot's growing by `delta` bytes adds to the blocks that a chain
/// takes up.
pub proof fn lemma_spans_shift(base: Seq<int>, kk: int, delta: int, k: int)
    requires
        0 <= kk < k,
        k < base.len(),
    ensures
        spans(crate::frame::shift(base, kk, delta), k) == spans(base, k) - span_of(
            base[kk + 1] - base[kk],
        ) + span_of(base[kk + 1] - base[kk] + delta),
    decreases k,
{
    let after = crate::frame::shift(base, kk, delta);
    if k == kk + 1 {
        lemma_spans_same(after, base, kk);
    } else {
        lemma_spans_shift(base, kk, delta, k - 1);
    }
}

/// Slots that hold nothing take up no block.
pub proof fn lemma_spans_flat(base: Seq<int>, from: int, k: int)
    requires
        0 <= from <= k,
        forall|t: int| from <= t < k ==> #[trigger] base[t + 1] == base[t],
    ensures
        spans(base, k) == spans(base, from),
    decreases k,
{
    if k > from {
        lemma_spans_flat(base, from, k - 1);
        assert(base[(k - 1) + 1] == base[k - 1]);
    }
}

/// Chain `after` came of `before`, which held `total` bytes, by growth:
/// the places before the end of `before` are as they were, what was at the
/// end is at or behind it, and at most one record was added, behind it.
pub open spec fn grew_from(after: Chain, before: Chain, total: int) -> bool {
    &&& before.blocks.len() >= 1
    &&& before.base.len() == 16 * before.blocks.len() + 1
    &&& after.base.len() == 16 * after.blocks.len() + 1
    &&& after.blocks.len() == before.blocks.len() || (after.blocks.len() == before.blocks.len() + 1
        && after.base[16 * (before.blocks.len() as int)] >= total)
    &&& forall|t: int|
        0 <= t <= 16 * before.blocks.len() ==> (if #[trigger] after.base[t] < total {
            after.base[t]
        } else {
            total
        }) == before.base[t]
}

/// A chain `after` that came of `before` by growth behind `total` bytes
/// takes up, once it is shortened to `total` bytes again, what `before`
/// took up.
pub proof fn lemma_restored(before: Chain, after: Chain, total: int)
    requires
        grew_from(after, before, total),
        before.blocks.len() == 1 || before.base[16 * (before.blocks.len() - 1)] < total,
    ensures
        shrunk_footprint(after, total) == footprint(before),
{
    let n = before.blocks.len() as int;
    let m = after.blocks.len() as int;
    if m == n + 1 {
        lemma_kept_drop(after.base, m, total);
    }
    if n > 1 {
        assert((if after.base[16 * (n - 1)] < total {
            after.base[16 * (n - 1)]
        } else {
            total
        }) == before.base[16 * (n - 1)]);
    }
    assert(kept(after.base, n, total) == n);
    let cut = cut_base(after.base, n, total);
    assert forall|t: int| 0 <= t <= 16 * n implies cut[t] == before.base[t] by {
        assert((if after.base[t] < total {
            after.base[t]
        } else {
            total
        }) == before.base[t]);
    }
    lemma_spans_same(cut, before.base, 16 * n);
}

} // verus!

verus! {

/// A chain that is shortened to nothing keeps one record and no block
/// besides.
pub proof fn lemma_shrunk_zero(c: Chain, n: int)
    requires
        1 <= n,
        forall|t: int| 0 <= t <= 16 * n ==> #[trigger] c.base[t] >= 0,
    ensures
        kept(c.base, n, 0) == 1,
        spans(cut_base(c.base, 1, 0), 16) == 0,
    decreases n,
{
    if n > 1 {
        assert(c.base[16 * (n - 1)] >= 0);
        lemma_shrunk_zero(c, n - 1);
    } else {
        let z = cut_base(c.base, 1, 0);
        assert forall|t: int| 0 <= t < 16 implies #[trigger] z[t + 1] == z[t] by {
            assert(c.base[t] >= 0);
            assert(c.base[t + 1] >= 0);
        }
        lemma_spans_flat(z, 0, 16);
    }
}

/// A node that holds nothing and has one record takes up one block.
pub proof fn lemma_empty_footprint(c: Chain)
    requires
        c.blocks.len() == 1,
        c.base == Seq::new(17, |t: int| 0int),
    ensures
        footprint(c) == 1,
{
    assert forall|t: int| 0 <= t < 16 implies #[trigger] c.base[t + 1] == c.base[t] by {}
    lemma_spans_flat(c.base, 0, 16);
}

} // verus!

verus! {

/// The number of bytes that slot `k` holds.
pub open spec fn slot_len(base: Seq<int>, k: int) -> int {
    base[k + 1] - base[k]
}

/// The places never fall.
pub open spec fn rising(base: Seq<int>, n: int) -> bool {
    forall|t1: int, t2: int| 0 <= t1 <= t2 <= 16 * n ==> #[trigger] base[t1] <= #[trigger] base[t2]
}

/// Only the last extent in use may fill its last block in part: an extent
/// of the first `n` records that does not end on a block boundary ends
/// where the bytes of the chain end.
pub open spec fn packed_base(base: Seq<int>, n: int) -> bool {
    forall|k: int| 0 <= k < 16 * n && #[trigger] slot_len(base, k) % 512 != 0 ==> base[k + 1] == base[16 * n]
}

/// Every extent of the first `n` records ends on a block boundary.
pub open spec fn aligned_base(base: Seq<int>, n: int) -> bool {
    forall|k: int| 0 <= k < 16 * n ==> #[trigger] slot_len(base, k) % 512 == 0
}

/// Only the last extent in use of chain `c` may fill its last block in
/// part.
pub open spec fn packed(c: Chain) -> bool {
    packed_base(c.base, c.blocks.len() as int)
}

/// A chain stays packed when its last extent in use grows.
pub proof fn lemma_packed_slack(base: Seq<int>, n: int, kk: int, delta: int)
    requires
        packed_base(base, n),
        rising(base, n),
        base.len() == 16 * n + 1,
        0 <= kk < 16 * n,
        delta >= 0,
        base[kk] < base[kk + 1],
        forall|t: int| kk < t <= 16 * n ==> #[trigger] base[t] == base[16 * n],
    ensures
        packed_base(crate::frame::shift(base, kk, delta), n),
{
    let after = crate::frame::shift(base, kk, delta);
    assert forall|k: int| 0 <= k < 16 * n && #[trigger] slot_len(after, k) % 512 != 0 implies after[k
        + 1] == after[16 * n] by {
        if k < kk {
            assert(slot_len(base, k) == slot_len(after, k));
            assert(base[k + 1] <= base[kk]);
        } else if k > kk {
            assert(base[k] == base[16 * n] && base[k + 1] == base[16 * n]);
        }
    }
}

/// Where the last extent in use of a packed chain ends on a block boundary,
/// every extent does.
pub proof fn lemma_all_aligned(base: Seq<int>, n: int, kk: int)
    requires
        packed_base(base, n),
        rising(base, n),
        base.len() == 16 * n + 1,
        0 <= kk < 16 * n,
        base[kk] < base[kk + 1],
        slot_len(base, kk) % 512 == 0,
        forall|t: int| kk < t <= 16 * n ==> #[trigger] base[t] == base[16 * n],
    ensures
        aligned_base(base, n),
{
    assert forall|k: int| 0 <= k < 16 * n implies #[trigger] slot_len(base, k) % 512 == 0 by {
        if k < kk {
            assert(base[k + 1] <= base[kk]);
        } else if k > kk {
            assert(base[k] == base[16 * n] && base[k + 1] == base[16 * n]);
        }
    }
}

/// A chain whose extents all end on block boundaries is packed after an
/// empty slot behind them takes an extent.
pub proof fn lemma_packed_new(base: Seq<int>, n: int, kk: int, delta: int)
    requires
        aligned_base(base, n),
        base.len() == 16 * n + 1,
        0 <= kk < 16 * n,
        forall|t: int| kk <= t <= 16 * n ==> #[trigger] base[t] == base[16 * n],
    ensures
        packed_base(crate::frame::shift(base, kk, delta), n),
{
    let after = crate::frame::shift(base, kk, delta);
    assert forall|k: int| 0 <= k < 16 * n && #[trigger] slot_len(after, k) % 512 != 0 implies after[k
        + 1] == after[16 * n] by {
        if k < kk {
            assert(slot_len(base, k) == slot_len(after, k));
            assert(slot_len(base, k) % 512 == 0);
        } else if k > kk {
            assert(base[k] == base[16 * n] && base[k + 1] == base[16 * n]);
        }
    }
}

/// An empty record behind a chain changes nothing of how its extents end.
pub proof fn lemma_packed_append(base: Seq<int>, n: int)
    requires
        base.len() == 16 * n + 1,
        0 <= n,
    ensures
        packed_base(base, n) ==> packed_base(base + Seq::new(16, |t: int| base[16 * n]), n + 1),
        aligned_base(base, n) ==> aligned_base(base + Seq::new(16, |t: int| base[16 * n]), n + 1),
{
    let after = base + Seq::new(16, |t: int| base[16 * n]);
    assert forall|k: int| 0 <= k < 16 * n implies #[trigger] slot_len(after, k) == slot_len(base, k) by {}
    assert forall|k: int| 16 * n <= k < 16 * (n + 1) implies #[trigger] slot_len(after, k) == 0 by {}
    assert(after[16 * (n + 1)] == base[16 * n]);
    if packed_base(base, n) {
        assert forall|k: int| 0 <= k < 16 * (n + 1) && #[trigger] slot_len(after, k) % 512
            != 0 implies after[k + 1] == after[16 * (n + 1)] by {
            if k < 16 * n {
                assert(slot_len(base, k) % 512 != 0);
            }
        }
    }
    if aligned_base(base, n) {
        assert forall|k: int| 0 <= k < 16 * (n + 1) implies #[trigger] slot_len(after, k) % 512
            == 0 by {
            if k < 16 * n {
                assert(slot_len(base, k) % 512 == 0);
            }
        }
    }
}

/// A packed chain is packed after a cut.
pub proof fn lemma_packed_cut(base: Seq<int>, n0: int, n: int, limit: int)
    requires
        packed_base(base, n0),
        rising(base, n0),
        1 <= n <= n0,
        base.len() == 16 * n0 + 1,
        0 <= limit <= base[16 * n],
        n < n0 ==> base[16 * n] == base[16 * n0] || limit <= base[16 * n],
    ensures
        packed_base(cut_base(base, n, limit), n),
{
    let after = cut_base(base, n, limit);
    assert(after[16 * n] == limit);
    assert forall|k: int| 0 <= k < 16 * n && #[trigger] slot_len(after, k) % 512 != 0 implies after[k
        + 1] == after[16 * n] by {
        assert(base[k] <= base[k + 1]);
        assert(base[k + 1] <= base[16 * n0]);
        if base[k + 1] < limit {
            assert(slot_len(base, k) == slot_len(after, k));
            assert(base[k + 1] == base[16 * n0]);
            assert(base[16 * n] <= base[16 * n0]);
        }
    }
}

} // verus!
