use vstd::prelude::*;
use vstd::bytes::*;
use vstd::slice::slice_subrange;

verus! {

/// The little-endian `u32` that stands at `off` in `s`.
pub open spec fn le32(s: Seq<u8>, off: int) -> u32 {
    spec_u32_from_le_bytes(s.subrange(off, off + 4))
}

/// The little-endian `u64` that stands at `off` in `s`.
pub open spec fn le64(s: Seq<u8>, off: int) -> u64 {
    spec_u64_from_le_bytes(s.subrange(off, off + 8))
}

/// Two sequences that agree on `[off, off + 4)` hold the same `u32` there.
pub proof fn lemma_le32_agree(a: Seq<u8>, b: Seq<u8>, off: int)
    requires
        0 <= off,
        off + 4 <= a.len(),
        off + 4 <= b.len(),
        forall|i: int| off <= i < off + 4 ==> a[i] == b[i],
    ensures
        le32(a, off) == le32(b, off),
{
    assert(a.subrange(off, off + 4) =~= b.subrange(off, off + 4));
}

/// Two sequences that agree on `[off, off + 8)` hold the same `u64` there.
pub proof fn lemma_le64_agree(a: Seq<u8>, b: Seq<u8>, off: int)
    requires
        0 <= off,
        off + 8 <= a.len(),
        off + 8 <= b.len(),
        forall|i: int| off <= i < off + 8 ==> a[i] == b[i],
    ensures
        le64(a, off) == le64(b, off),
{
    assert(a.subrange(off, off + 8) =~= b.subrange(off, off + 8));
}

/// What a write of `len` bytes at `off` leaves alone: every byte outside the
/// range, and so every integer that stands clear of it.
pub open spec fn kept_outside(before: Seq<u8>, after: Seq<u8>, off: int, len: int) -> bool {
    &&& after.len() == before.len()
    &&& forall|i: int| 0 <= i < before.len() && !(off <= i < off + len) ==> after[i] == before[i]
    &&& forall|o: int|
        0 <= o && o + 4 <= before.len() && (o + 4 <= off || off + len <= o) ==> #[trigger] le32(
            after,
            o,
        ) == le32(before, o)
    &&& forall|o: int|
        0 <= o && o + 8 <= before.len() && (o + 8 <= off || off + len <= o) ==> #[trigger] le64(
            after,
            o,
        ) == le64(before, o)
}

/// Bytes that agree outside a window hold the same numbers outside it.
pub proof fn lemma_kept_outside(before: Seq<u8>, after: Seq<u8>, off: int, len: int)
    requires
        after.len() == before.len(),
        forall|i: int| 0 <= i < before.len() && !(off <= i < off + len) ==> after[i] == before[i],
    ensures
        kept_outside(before, after, off, len),
{
    assert forall|o: int|
        0 <= o && o + 4 <= before.len() && (o + 4 <= off || off + len <= o) implies #[trigger] le32(
        after,
        o,
    ) == le32(before, o) by {
        lemma_le32_agree(after, before, o);
    }
    assert forall|o: int|
        0 <= o && o + 8 <= before.len() && (o + 8 <= off || off + len <= o) implies #[trigger] le64(
        after,
        o,
    ) == le64(before, o) by {
        lemma_le64_agree(after, before, o);
    }
}

/// The 32-bit number that stands at `off`, low byte first.
pub fn get_u32(buf: &[u8; 512], off: usize) -> (v: u32)
    requires
        off + 4 <= 512,
    ensures
        v == le32(buf@, off as int),
{
    u32_from_le_bytes(slice_subrange(buf.as_slice(), off, off + 4))
}

/// The 64-bit number that stands at `off`, low byte first.
pub fn get_u64(buf: &[u8; 512], off: usize) -> (v: u64)
    requires
        off + 8 <= 512,
    ensures
        v == le64(buf@, off as int),
{
    u64_from_le_bytes(slice_subrange(buf.as_slice(), off, off + 8))
}

/// Copies `src` into `buf` at `off`.
pub fn put_bytes(buf: &mut [u8; 512], off: usize, src: &[u8])
    requires
        off + src@.len() <= 512,
    ensures
        final(buf)@.subrange(off as int, off + src@.len()) == src@,
        kept_outside(old(buf)@, final(buf)@, off as int, src@.len() as int),
{
    let n = src.len();
    let mut k: usize = 0;
    while k < n
        invariant
            k <= n,
            n == src@.len(),
            off + n <= 512,
            forall|i: int| 0 <= i < 512 && !(off <= i < off + k) ==> buf@[i] == old(buf)@[i],
            forall|i: int| 0 <= i < k ==> buf@[off + i] == src@[i],
        decreases n - k,
    {
        buf[off + k] = src[k];
        k += 1;
    }
    proof {
        assert(buf@.subrange(off as int, off + src@.len()) =~= src@);
        lemma_kept_outside(old(buf)@, buf@, off as int, src@.len() as int);
    }
}

/// Puts `v` at `off`, low byte first.
pub fn put_u32(buf: &mut [u8; 512], off: usize, v: u32)
    requires
        off + 4 <= 512,
    ensures
        le32(final(buf)@, off as int) == v,
        kept_outside(old(buf)@, final(buf)@, off as int, 4),
{
    let b = u32_to_le_bytes(v);
    put_bytes(buf, off, b.as_slice());
    proof {
        lemma_auto_spec_u32_to_from_le_bytes();
    }
}

/// Puts `v` at `off`, low byte first.
pub fn put_u64(buf: &mut [u8; 512], off: usize, v: u64)
    requires
        off + 8 <= 512,
    ensures
        le64(final(buf)@, off as int) == v,
        kept_outside(old(buf)@, final(buf)@, off as int, 8),
{
    let b = u64_to_le_bytes(v);
    put_bytes(buf, off, b.as_slice());
    proof {
        lemma_auto_spec_u64_to_from_le_bytes();
    }
}

} // verus!
