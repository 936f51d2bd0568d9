//! The offset chunk: for each object its pack and where it lies there. An
//! offset of less than 2^31 is written as it is; a larger one goes to the
//! chunk of large offsets, and its place there is written with the high bit set.
use crate::bytes::{be_u32, put_u32};
use crate::chunk_table::Id;
use crate::multi_index::entry::Entry;
use vstd::prelude::*;

verus! {

/// The identifier of the chunk, `OOFF`.
pub const ID: Id = [0x4f, 0x4f, 0x46, 0x46];

/// The greatest offset that is written into the chunk itself.
pub const LARGE_OFFSET_THRESHOLD: u64 = 0x7fff_ffff;

/// The bit that marks a place in the chunk of large offsets.
pub const HIGH_BIT: u32 = 0x8000_0000;

/// Whether an offset is too large for the offset chunk.
pub open spec fn is_large(offset: u64) -> bool {
    offset > LARGE_OFFSET_THRESHOLD
}

/// The number of entries with a large offset.
pub open spec fn large_count(entries: Seq<Entry>) -> nat
    decreases entries.len(),
{
    if entries.len() == 0 {
        0
    } else if is_large(entries.last().pack_offset) {
        large_count(entries.drop_last()) + 1
    } else {
        large_count(entries.drop_last())
    }
}

/// The number of large offsets before place `k`: where the large offset of
/// the entry at place `k` stands in the chunk of large offsets.
pub open spec fn large_place(entries: Seq<Entry>, k: int) -> int {
    large_count(entries.take(k)) as int
}

/// What the offset chunk holds as the offset of the entry at place `k`: the
/// offset itself, or for a large offset the high bit and its place in the
/// chunk of large offsets.
pub open spec fn offset_field(entries: Seq<Entry>, k: int) -> int {
    if is_large(entries[k].pack_offset) {
        HIGH_BIT + large_place(entries, k)
    } else {
        entries[k].pack_offset as int
    }
}

/// The bytes of the chunk for the given entries.
pub open spec fn offsets_bytes(entries: Seq<Entry>) -> Seq<u8>
    decreases entries.len(),
{
    if entries.len() == 0 {
        Seq::empty()
    } else {
        offsets_bytes(entries.drop_last()) + be_u32(entries.last().pack_index) + be_u32(
            offset_field(entries, entries.len() - 1) as u32,
        )
    }
}

/// The number of large offsets is bounded by the number of entries and grows with them.
pub proof fn lemma_large_count(entries: Seq<Entry>, k: int)
    requires
        0 <= k <= entries.len(),
    ensures
        large_count(entries.take(k)) <= large_count(entries) <= entries.len(),
        large_count(entries.take(k)) <= k,
        k < entries.len() && is_large(entries[k].pack_offset) ==> large_count(entries.take(k))
            < large_count(entries),
    decreases entries.len() - k, entries.len(),
{
    if k < entries.len() {
        let t = entries.drop_last();
        assert(t.take(k) =~= entries.take(k));
        lemma_large_count(t, k);
        if k < t.len() {
            assert(t[k] == entries[k]);
        } else {
            assert(t.take(k) =~= t);
        }
    } else {
        assert(entries.take(k) =~= entries);
        if entries.len() > 0 {
            lemma_large_count(entries.drop_last(), k - 1);
            assert(entries.drop_last().take(k - 1) =~= entries.drop_last());
        }
    }
}

/// The chunk has the size that is planned for it.
pub proof fn lemma_offsets_len(entries: Seq<Entry>)
    ensures
        offsets_bytes(entries).len() == entries.len() * 8,
    decreases entries.len(),
{
    if entries.len() > 0 {
        lemma_offsets_len(entries.drop_last());
    }
}

/// The chunk for the first `k` entries is the beginning of the chunk for all.
pub proof fn lemma_offsets_prefix(entries: Seq<Entry>, k: int)
    requires
        0 <= k <= entries.len(),
    ensures
        offsets_bytes(entries).len() >= k * 8,
        offsets_bytes(entries).subrange(0, k * 8) == offsets_bytes(entries.take(k)),
    decreases entries.len() - k,
{
    lemma_offsets_len(entries);
    if k < entries.len() {
        let t = entries.drop_last();
        assert(t.take(k) =~= entries.take(k));
        lemma_offsets_prefix(t, k);
        lemma_offsets_len(t);
        assert(offsets_bytes(entries).subrange(0, k * 8) =~= offsets_bytes(t).subrange(0, k * 8));
    } else {
        assert(entries.take(k) =~= entries);
        assert(offsets_bytes(entries).subrange(0, k * 8) =~= offsets_bytes(entries));
    }
}

/// The record of the entry at place `k` stands at place `k` of the chunk: its
/// pack ordinal, then its offset field.
pub proof fn lemma_offsets_slot(entries: Seq<Entry>, k: int)
    requires
        0 <= k < entries.len(),
    ensures
        offsets_bytes(entries).len() >= (k + 1) * 8,
        offsets_bytes(entries).subrange(k * 8, k * 8 + 4) == be_u32(entries[k].pack_index),
        offsets_bytes(entries).subrange(k * 8 + 4, k * 8 + 8) == be_u32(
            offset_field(entries, k) as u32,
        ),
{
    lemma_offsets_prefix(entries, k + 1);
    let t = entries.take(k + 1);
    let all = offsets_bytes(entries);
    lemma_offsets_len(t.drop_last());
    assert(t.last() == entries[k]);
    assert(t.take(k) =~= entries.take(k));
    assert(offset_field(t, k) == offset_field(entries, k));
    assert(offsets_bytes(t).subrange(k * 8, k * 8 + 4) =~= be_u32(entries[k].pack_index));
    assert(offsets_bytes(t).subrange(k * 8 + 4, k * 8 + 8) =~= be_u32(
        offset_field(entries, k) as u32,
    ));
    assert(all.subrange(k * 8, k * 8 + 4) =~= all.subrange(0, (k + 1) * 8).subrange(
        k * 8,
        k * 8 + 4,
    ));
    assert(all.subrange(k * 8 + 4, k * 8 + 8) =~= all.subrange(0, (k + 1) * 8).subrange(
        k * 8 + 4,
        k * 8 + 8,
    ));
}

/// The number of bytes that the chunk takes for `entries` objects.
pub fn storage_size(entries: usize) -> (r: u64)
    requires
        entries * 8 <= u64::MAX,
    ensures
        r == entries * 8,
{
    entries as u64 * 8
}

/// Appends the chunk for the given entries to `out`.
pub fn write(entries: &Vec<Entry>, out: &mut Vec<u8>)
    requires
        large_count(entries@) <= HIGH_BIT,
    ensures
        final(out)@ == old(out)@ + offsets_bytes(entries@),
{
    let ghost before = out@;
    let mut num_large: u32 = 0;
    let mut i: usize = 0;
    assert(entries@.take(0) =~= Seq::empty());
    assert(out@ =~= before + offsets_bytes(entries@.take(0)));
    while i < entries.len()
        invariant
            i <= entries.len(),
            large_count(entries@) <= HIGH_BIT,
            num_large == large_count(entries@.take(i as int)),
            out@ == before + offsets_bytes(entries@.take(i as int)),
        decreases entries.len() - i,
    {
        let entry = entries[i];
        proof {
            let t = entries@.take(i + 1);
            assert(t.drop_last() =~= entries@.take(i as int));
            assert(t.take(i as int) =~= entries@.take(i as int));
            assert(t.last() == entries@[i as int]);
            lemma_large_count(entries@, i as int);
            lemma_large_count(entries@, i + 1);
        }
        put_u32(out, entry.pack_index);
        let field: u32 = if entry.pack_offset > LARGE_OFFSET_THRESHOLD {
            let place = HIGH_BIT + num_large;
            num_large = num_large + 1;
            place
        } else {
            entry.pack_offset as u32
        };
        put_u32(out, field);
        i += 1;
        assert(out@ =~= before + offsets_bytes(entries@.take(i as int)));
    }
    assert(entries@.take(entries.len() as int) =~= entries@);
}

} // verus!
